pub mod mock_exec;
