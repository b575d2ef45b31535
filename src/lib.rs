//! Widgets for iced applications, and the dataflow engine behind a node editor.
mod foreign;
pub mod widget;
