//! The shape of a dense layer: how many weights and biases it holds and
//! where the weight of a given input and output stands in the flat array.

use vstd::prelude::*;

verus! {

/// Why a layer could not be laid out.
#[derive(Debug, Clone, Copy, PartialEq, Eq)]
pub enum LayerError {
    /// One of the two sizes is zero or negative.
    InvalidDimension { input_sz: i32, output_sz: i32 },
}

/// Sizes of one dense layer, fixed when it is built.
#[derive(Debug, Clone, Copy, PartialEq, Eq)]
pub struct LayerShape {
    pub input_sz: u32,
    pub output_sz: u32,
}

/// Shapes of the two layers of the classifier.
#[derive(Debug, Clone, Copy, PartialEq, Eq)]
pub struct NetworkShape {
    pub hidden: LayerShape,
    pub output: LayerShape,
}

impl LayerShape {
    /// Both sizes are positive.
    pub open spec fn wf(&self) -> bool {
        self.input_sz > 0 && self.output_sz > 0
    }

    /// Number of weights, as a mathematical integer.
    pub open spec fn weights(&self) -> int {
        self.input_sz * self.output_sz
    }

    /// The shape of a layer from `input_sz` inputs to `output_sz` outputs.
    /// Rejected exactly when a size is not positive.
    pub fn new(input_sz: i32, output_sz: i32) -> (r: Result<LayerShape, LayerError>)
        ensures
            match r {
                Ok(shape) => {
                    &&& shape.wf()
                    &&& shape.input_sz == input_sz
                    &&& shape.output_sz == output_sz
                },
                Err(e) => {
                    &&& input_sz <= 0 || output_sz <= 0
                    &&& e == (LayerError::InvalidDimension { input_sz, output_sz })
                },
            },
    {
        if input_sz <= 0 || output_sz <= 0 {
            Err(LayerError::InvalidDimension { input_sz, output_sz })
        } else {
            Ok(LayerShape { input_sz: input_sz as u32, output_sz: output_sz as u32 })
        }
    }

    /// Number of weights: one for each pair of an input and an output.
    pub fn weight_count(&self) -> (n: u64)
        ensures
            n == self.weights(),
    {
        assert(self.input_sz * self.output_sz <= u64::MAX) by (nonlinear_arith)
            requires
                self.input_sz <= 0xffff_ffff,
                self.output_sz <= 0xffff_ffff,
        ;
        self.input_sz as u64 * self.output_sz as u64
    }

    /// Number of biases: one for each output.
    pub fn bias_count(&self) -> (n: u64)
        ensures
            n == self.output_sz,
    {
        self.output_sz as u64
    }

    /// Where the weight from `input` to `output` stands: the matrix is laid
    /// out row by row, one row for each input.
    pub fn weight_index(&self, input: u32, output: u32) -> (at: u64)
        requires
            input < self.input_sz,
            output < self.output_sz,
        ensures
            at == input * self.output_sz + output,
            at < self.weights(),
    {
        assert(input * self.output_sz + output < self.input_sz * self.output_sz
            && self.input_sz * self.output_sz <= u64::MAX) by (nonlinear_arith)
            requires
                input < self.input_sz,
                output < self.output_sz,
                self.input_sz <= 0xffff_ffff,
                self.output_sz <= 0xffff_ffff,
        ;
        assert(0 <= input * self.output_sz) by (nonlinear_arith);
        input as u64 * self.output_sz as u64 + output as u64
    }
}

impl NetworkShape {
    /// The hidden layer feeds the output layer.
    pub open spec fn wf(&self) -> bool {
        &&& self.hidden.wf()
        &&& self.output.wf()
        &&& self.hidden.output_sz == self.output.input_sz
    }

    /// Shapes of a hidden layer from `input_sz` to `hidden_sz` and an
    /// output layer from `hidden_sz` to `output_sz`. Rejected exactly when
    /// a size is not positive; the error names the first layer at fault.
    pub fn new(input_sz: i32, hidden_sz: i32, output_sz: i32) -> (r: Result<
        NetworkShape,
        LayerError,
    >)
        ensures
            match r {
                Ok(net) => {
                    &&& net.wf()
                    &&& net.hidden.input_sz == input_sz
                    &&& net.hidden.output_sz == hidden_sz
                    &&& net.output.output_sz == output_sz
                },
                Err(e) => if input_sz <= 0 || hidden_sz <= 0 {
                    e == (LayerError::InvalidDimension { input_sz, output_sz: hidden_sz })
                } else {
                    output_sz <= 0 && e == (LayerError::InvalidDimension {
                        input_sz: hidden_sz,
                        output_sz,
                    })
                },
            },
    {
        let hidden = match LayerShape::new(input_sz, hidden_sz) {
            Ok(shape) => shape,
            Err(e) => {
                return Err(e);
            },
        };
        let output = match LayerShape::new(hidden_sz, output_sz) {
            Ok(shape) => shape,
            Err(e) => {
                return Err(e);
            },
        };
        Ok(NetworkShape { hidden, output })
    }
}

} // verus!
