//! Splitting a text buffer into lines, with kernels shaped for vector units.
//!
//! A buffer is a sequence of bytes; the single byte `0x0A` ends a line and
//! every other byte is payload. Two families of kernels scan a buffer:
//!
//! * [`slice`] reports each line as a view into the input;
//! * [`compressed`] reports a [`compressed::LineIndex`]: the low 16 bits of
//!   each newline offset, and for each block of 64 KiB where its run begins.
//!
//! The kernels of a family differ in the width of the chunks they scan, in
//! how far their loops are unrolled, and in how they keep growth of the
//! output out of their inner loops ([`window`]). They do not differ in what
//! they report: each one is proved to give exactly what the mathematical
//! model in [`lines`] prescribes, so all kernels of a family agree on every
//! input, and with the scalar reference of the family.
//!
//! [`prep`] makes the buffers on which the kernels are measured, and [`cpu`]
//! holds what is known of the processor.

pub mod compressed;
pub mod cpu;
pub mod lines;
pub mod mask;
pub mod prep;
pub mod slice;
pub mod text;
pub mod window;
