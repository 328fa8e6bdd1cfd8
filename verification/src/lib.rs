pub mod count;
pub mod val;
pub mod ir;
pub mod ops;
pub mod pass_resolve;
pub mod pass_fold;
pub mod builder;
pub mod bench_cramer;
pub mod bench_ode;
pub mod bench_stb;
pub mod bench_transformer;
