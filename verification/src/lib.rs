//! A viewer for very large log files, without the window.
//!
//! [`logstore`] holds the index of a file and the search in it, on top of [`lines`],
//! [`encoding`] and [`search`]. [`bookmarks`] and [`marks`] keep lines that are worth coming
//! back to. [`linehead`], [`render`] and [`style`] say how a line looks. The `app` modules are
//! the viewer itself: what it shows, and what keys and buttons do. [`startup`] and [`fonts`]
//! decide what is to be decided before there is a window. [`paths`] reads paths as each system
//! does. [`outside`] holds all that is taken
//! from other crates on trust.
//!
//! The modules named `laws` state what holds of the library as a whole.

pub mod app;
pub mod app_keys;
pub mod app_laws;
pub mod app_marks;
pub mod app_view;
pub mod bookmarks;
pub mod boundaries;
pub mod encoding;
pub mod fonts;
pub mod labels;
pub mod linehead;
pub mod lines;
pub mod logstore;
pub mod mark_laws;
pub mod mark_list_laws;
pub mod marks;
pub mod outside;
pub mod paths;
pub mod render;
pub mod render_laws;
pub mod search;
pub mod search_laws;
pub mod session_laws;
pub mod startup;
pub mod store_laws;
pub mod style;
pub mod text;
pub mod text_laws;
