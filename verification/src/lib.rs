//! Game-platform user events, kept in an ordered tree that sets exact
//! repeats aside.
//!
//! A row of delimited text becomes a [`record::GameData`]; records are
//! placed one by one into a [`tree::Tree`], an unbalanced binary search tree
//! ordered by identifier, name, behaviour and measure. A record that matches
//! a resident one on all four is not placed: it joins the tree's list of
//! duplicates instead.
//!
//! Measures are binary64 numbers. The library holds each by its bit pattern
//! and orders the patterns as the numbers are ordered; reading decimal text
//! into a number is left to the caller.
pub mod measure;
pub mod parser;
pub mod record;
pub mod search_order;
pub mod text;
pub mod tree;
