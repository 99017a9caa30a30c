#![allow(unused_imports)]

pub mod agents;
pub mod assembly;
pub mod bus;
pub mod chain;
pub mod collab;
pub mod collab_state;
pub mod converse;
pub mod crew;
pub mod desk;
pub mod discussion;
pub mod drive;
pub mod engine;
pub mod envelope;
pub mod events;
pub mod execution;
pub mod facade;
pub mod fence;
pub mod history;
pub mod journal;
pub mod json;
pub mod kernel;
pub mod module;
pub mod operation;
pub mod packages;
pub mod patch;
pub mod ports;
pub mod prompt;
pub mod providers;
pub mod rebuild;
pub mod refs;
pub mod registry;
pub mod review;
pub mod roles;
pub mod schema;
pub mod session;
pub mod suggest;
pub mod systool;
pub mod table;
pub mod team;
pub mod text;
pub mod turn;
pub mod views;
pub mod work;
pub mod workspace;
