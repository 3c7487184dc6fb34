pub mod mlp;
pub mod rbfn;
pub mod svm;
pub mod perceptron;
pub mod linear;
