//! Core of the Blimp package manager: versions and constraints, package
//! descriptors, repositories, the dependency resolver, the installed-package
//! database and the decisions of the installation engine, the builder, the
//! source cache and the package server.
pub mod text;
pub mod version;
pub mod package;
pub mod remote;
pub mod repository;
pub mod resolve;
pub mod paths;
pub mod install;
pub mod archive;
pub mod cache;
pub mod download;
pub mod confirm;
pub mod builder;
pub mod server;
