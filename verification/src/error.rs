//! The fatal error kinds of the reconciliation core. Every error carries the
//! text a caller needs to report it: an offending value, field, manager name
//! or parse message.

use vstd::prelude::*;

verus! {

/// Ghost image of a `ConfigError`.
pub enum ConfigErrorModel {
    /// A document failed to parse; holds the parser's message.
    ParseFailed(Seq<char>),
    /// An items array held a non-string element; holds its debug text.
    NonStringItem(Seq<char>),
    /// A manager declaration lacks a required field; holds the field name.
    MissingField(Seq<char>),
    /// A manager declaration holds a field outside the schema.
    UnknownField(Seq<char>),
    /// A declaration field holds a value of the wrong kind.
    WrongFieldType(Seq<char>),
    /// A requested manager name matches no loaded manager.
    ManagerNotFound(Seq<char>),
    /// A command template holds neither placeholder.
    NoPlaceholder,
}

/// A fatal configuration, resolution or templating error.
#[derive(Debug, PartialEq)]
pub enum ConfigError {
    ParseFailed(String),
    NonStringItem(String),
    MissingField(String),
    UnknownField(String),
    WrongFieldType(String),
    ManagerNotFound(String),
    NoPlaceholder,
}

impl View for ConfigError {
    type V = ConfigErrorModel;

    open spec fn view(&self) -> ConfigErrorModel {
        match self {
            ConfigError::ParseFailed(s) => ConfigErrorModel::ParseFailed(s@),
            ConfigError::NonStringItem(s) => ConfigErrorModel::NonStringItem(s@),
            ConfigError::MissingField(s) => ConfigErrorModel::MissingField(s@),
            ConfigError::UnknownField(s) => ConfigErrorModel::UnknownField(s@),
            ConfigError::WrongFieldType(s) => ConfigErrorModel::WrongFieldType(s@),
            ConfigError::ManagerNotFound(s) => ConfigErrorModel::ManagerNotFound(s@),
            ConfigError::NoPlaceholder => ConfigErrorModel::NoPlaceholder,
        }
    }
}

} // verus!
