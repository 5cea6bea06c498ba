//! Sculpting core for a digital clay modeller.

pub mod actions;
pub mod bench;
pub mod bookmarks;
pub mod brush;
pub mod bytes;
pub mod chunk_table;
pub mod clay;
pub mod components;
pub mod desk;
pub mod dirty;
pub mod displace;
pub mod dual_contour;
pub mod edit;
pub mod export;
pub mod gravity;
pub mod grid;
pub mod journal;
pub mod layers;
pub mod merge;
pub mod mesh;
pub mod move_tool;
pub mod panels;
pub mod paths;
pub mod pen;
pub mod plastic;
pub mod preview;
pub mod probe;
pub mod project;
pub mod project_write;
pub mod region;
pub mod remesh;
pub mod rest;
pub mod rewind;
pub mod rotate_tool;
pub mod sample;
pub mod sandpile;
pub mod scene;
pub mod sculpt;
pub mod selection;
pub mod session;
pub mod snapshot;
pub mod stamp;
pub mod stroke;
pub mod text;
pub mod timestamp;
pub mod tool;
pub mod turn;
pub mod undo;
pub mod vec3;
