use mnist_prep::layer::{LayerError, LayerShape, NetworkShape};

#[test]
fn shape_keeps_the_sizes() {
    let shape = LayerShape::new(784, 256).unwrap();
    assert_eq!(shape, LayerShape { input_sz: 784, output_sz: 256 });
}

#[test]
fn counts_of_the_hidden_layer() {
    let shape = LayerShape::new(784, 256).unwrap();
    assert_eq!(shape.weight_count(), 200704);
    assert_eq!(shape.bias_count(), 256);
}

#[test]
fn counts_of_the_output_layer() {
    let shape = LayerShape::new(256, 10).unwrap();
    assert_eq!(shape.weight_count(), 2560);
    assert_eq!(shape.bias_count(), 10);
}

#[test]
fn counts_of_the_largest_layer_do_not_wrap() {
    let shape = LayerShape::new(i32::MAX, i32::MAX).unwrap();
    assert_eq!(shape.weight_count(), 4611686014132420609);
    assert_eq!(shape.weight_index(2147483646, 2147483646), 4611686014132420608);
}

#[test]
fn non_positive_sizes_are_invalid_dimensions() {
    assert_eq!(
        LayerShape::new(0, 10),
        Err(LayerError::InvalidDimension { input_sz: 0, output_sz: 10 })
    );
    assert_eq!(
        LayerShape::new(10, 0),
        Err(LayerError::InvalidDimension { input_sz: 10, output_sz: 0 })
    );
    assert_eq!(
        LayerShape::new(-784, 256),
        Err(LayerError::InvalidDimension { input_sz: -784, output_sz: 256 })
    );
    assert_eq!(
        LayerShape::new(784, i32::MIN),
        Err(LayerError::InvalidDimension { input_sz: 784, output_sz: i32::MIN })
    );
}

#[test]
fn weight_index_is_row_major() {
    let shape = LayerShape::new(3, 4).unwrap();
    assert_eq!(shape.weight_index(0, 0), 0);
    assert_eq!(shape.weight_index(0, 3), 3);
    assert_eq!(shape.weight_index(1, 0), 4);
    assert_eq!(shape.weight_index(2, 3), 11);
}

#[test]
fn weight_index_visits_every_slot_once() {
    let shape = LayerShape::new(5, 7).unwrap();
    let mut seen: Vec<bool> = vec![false; shape.weight_count() as usize];
    for input in 0u32..5 {
        for output in 0u32..7 {
            let at: usize = shape.weight_index(input, output) as usize;
            assert!(!seen[at]);
            seen[at] = true;
        }
    }
    assert!(seen.iter().all(|s| *s));
}

#[test]
fn network_chains_hidden_and_output() {
    let net = NetworkShape::new(784, 256, 10).unwrap();
    assert_eq!(net.hidden, LayerShape { input_sz: 784, output_sz: 256 });
    assert_eq!(net.output, LayerShape { input_sz: 256, output_sz: 10 });
    assert_eq!(net.hidden.output_sz, net.output.input_sz);
}

#[test]
fn network_names_the_first_layer_at_fault() {
    assert_eq!(
        NetworkShape::new(0, 256, 10),
        Err(LayerError::InvalidDimension { input_sz: 0, output_sz: 256 })
    );
    assert_eq!(
        NetworkShape::new(784, -1, 0),
        Err(LayerError::InvalidDimension { input_sz: 784, output_sz: -1 })
    );
    assert_eq!(
        NetworkShape::new(784, 256, 0),
        Err(LayerError::InvalidDimension { input_sz: 256, output_sz: 0 })
    );
}
