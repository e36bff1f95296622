//! An event-driven simulator for digital circuits.
//!
//! A project of circuits is compiled to templates ([`compile`]), the templates are elaborated
//! to a flat netlist of gates ([`netlist`]), and the netlist is simulated ([`sim`]). Test
//! scripts drive a simulation through the actions and readouts of its components ([`ctest`]).
//! A whole run of a project, from its circuits to what its pins show, is in [`summary`].
pub mod plugin_abi;
pub mod components;
pub mod text;
pub mod name_map;
pub mod netlist;
pub mod hierarchy;
pub mod sim;
pub mod file_format;
pub mod compile;
pub mod ctest;
pub mod summary;
