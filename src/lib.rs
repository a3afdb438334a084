//! Typed object graphs described by tag/attribute documents, and patched live by
//! named functions.
use vstd::prelude::*;

pub mod construct;
pub mod error;
pub mod graph;
pub mod instance;
pub mod live;
pub mod named_system_registry;
pub mod notation;
pub mod patch;
pub mod registry;
pub mod resolve;
pub mod scene;

pub use construct::{
    TypedPartialReflectDeserializer, construct_from_lit, construct_instance, construct_lit,
};
pub use error::HTMLSceneSpawnError;
pub use graph::{Graph, GraphNode, NameEntry};
pub use instance::{FieldValue, Instance};
pub use live::{
    PassEvents, Trigger, XFunction, XOn, XPlugin, XSwap, XTarget, apply_swap, collect_documents,
    find_to_run, resolve_target, run_pass, spawn_document, swap_document, swap_returned, trigger_of,
    triggers_of,
};
pub use named_system_registry::{Host, NamedSystemRegistry, NamedSystemRegistryPlugin};
pub use notation::{Ident, Lit, LitField, parse_notation};
pub use registry::{Field, LeafParser, Shape, TypeDescriptor, TypeRegistry, Variant, VariantKind};
pub use scene::{Attribute, Element, Facet, Plan, ReadElement, assemble, read_element};

verus! {

/// Sets up a scene: the trigger types and the colour leaf type registered, and
/// an empty function table.
pub struct HTMLPlugin;

impl HTMLPlugin {
    /// The registries that a scene starts with.
    pub fn build(&self) -> (r: (TypeRegistry, NamedSystemRegistry))
        ensures
            r.0.types@.len() == 7,
            forall|k: int|
                0 <= k < 6 ==> (#[trigger] r.0.types@[k]).name@ == live::trigger_type_names()[k],
            r.0.types@[6].name@ == "Color"@,
            r.0.types@[6].shape is Value,
            r.0.types@[6].parser == Some(LeafParser::Color),
            r.1.entries().len() == 0,
    {
        let mut types = TypeRegistry::new();
        XPlugin.build(&mut types);
        proof {
            assert forall|k: int| 0 <= k < 6 implies (#[trigger] types.types@[k]).name@
                == live::trigger_type_names()[k] by {
                assert(types.types@[0 + k] == types.types@[k]);
            }
        }
        let ghost six = types.types@;
        types.register(
            TypeDescriptor {
                name: String::from_str("Color"),
                shape: Shape::Value,
                default: None,
                parser: Some(LeafParser::Color),
                template: None,
            },
        );
        proof {
            assert forall|k: int| 0 <= k < 6 implies (#[trigger] types.types@[k]).name@
                == live::trigger_type_names()[k] by {
                assert(types.types@[k] == six[k]);
            }
        }
        (types, NamedSystemRegistryPlugin.build())
    }
}

} // verus!
