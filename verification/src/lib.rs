pub mod ast;
pub mod frontend;
pub mod new_runtime;
pub mod runtime;
pub mod table;
pub mod util;
