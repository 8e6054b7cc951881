//! Traefik routing rules: tokenizer, parser, renderer and route ordering.

pub mod k8s;
pub mod lexer;
pub mod request;
pub mod rule;
pub mod round_trip;
pub mod routing_laws;
pub mod rule_parser;
pub mod text;
