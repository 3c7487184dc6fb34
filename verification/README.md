# felidae_classifier

A small image-classification toolkit (cat, lion, cheetah) whose structural
core is verified with Verus.

- `src/` — the verified library: matrices and their layout, labelled datasets
  and the stratified train/test split (exact for given per-class orders), reading an image folder class by class
  (classes in string order, samples in class order, a limit per class),
  one-hot coding, Fisher-Yates shuffling of indices with draws from a seeded
  generator, the randomly ordered three-species image set, the starting samples of k-means, confusion matrices and their
  printed column widths, the architecture of a multi-layer perceptron, image
  decoding and resizing and semicolon-separated tables through the `image`
  and `csv` crates, and the binary file formats of every model and of the
  dataset cache, each with a proof that what is written is read back
  unchanged. The element type of matrices is a parameter: the
  library moves, indexes and encodes values but never computes on them.
- `tests/` — tests of the library.
- `app/` — the floating-point side (training and prediction of the linear,
  perceptron, MLP, RBF and SVM models, feature extraction and scaling), file
  and image input and output, the C interface and the command-line programs.
