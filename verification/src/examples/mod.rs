pub mod numbers;
