//! The manifest's abstract syntax: sources, gem statements with their
//! options, a required interpreter version, and grouped statements.
use vstd::prelude::*;

verus! {

#[derive(Debug)]
pub struct Gemfile {
    pub sources: Vec<Source>,
    pub gems: Vec<GemStatement>,
    pub ruby_version: Option<String>,
    pub groups: Vec<GroupBlock>,
}

#[derive(Debug)]
pub struct Source {
    pub name: Option<String>,
    pub url: String,
}

#[derive(Debug)]
pub struct GemStatement {
    pub name: String,
    pub version: Option<String>,
    pub options: Vec<GemOption>,
}

#[derive(Debug)]
pub struct GemOption {
    pub key: String,
    pub value: OptionValue,
}

#[derive(Debug)]
pub enum OptionValue {
    String(String),
    Boolean(bool),
    Symbol(String),
    Array(Vec<OptionValue>),
    Hash(Vec<(String, OptionValue)>),
}

#[derive(Debug)]
pub struct GroupBlock {
    pub names: Vec<String>,
    pub gems: Vec<GemStatement>,
}

} // verus!
