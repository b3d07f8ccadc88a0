pub mod configfile;
pub mod inifile;
pub mod parsing;
pub mod text;
