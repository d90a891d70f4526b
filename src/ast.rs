pub mod c_ast;
pub mod lisp_ast;
