//! Resolution of a hierarchical, multi-environment configuration tree.
//!
//! Spaces declare environments, variables, dependencies and a mapping of
//! their environments onto the environments of the enclosing space. The
//! resolver composes all of that into one variables document per space.
pub mod ancestor_mapping;
pub mod value;
pub mod space_graph;
pub mod resolve_spaces;
pub mod template_file;
pub mod text;
pub mod json_text;
pub mod upper_snake_case;
pub mod serialize_env;
pub mod apply_resolved;
pub mod file_graph;
pub mod template_value;
pub mod get_environment_value;
pub mod map_path;
