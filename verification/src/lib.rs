//! Verified logic of a set of small systems programs: a barrel-jumping game and the menu of
//! a game kernel for a bare-metal OS, a web client and a web server, a small shell, and
//! file tools that count, head, sort and search lines.

pub mod keys;
pub mod text;
pub mod barrel_game;
pub mod kernel;
pub mod webget;
pub mod vssh;
pub mod webserver;
pub mod commands;
