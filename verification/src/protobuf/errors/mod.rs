pub mod datafusion_error;
