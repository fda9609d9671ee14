//! Whole-tree traversal over an object graph whose nodes keep their
//! attributes in a compact, insertion-ordered hash table.
//!
//! The graph is held as plain values: objects are numbered, each one
//! refers only to objects with smaller numbers, and every node's attribute
//! table follows the layout it has in the host runtime (a fixed header
//! followed by a packed array of key/value slots). The traversal engine,
//! the table decoders, the child classifier and the node-type registry are
//! verified against one recursive definition of the walk, `walk_spec`.

pub mod enumerate;
pub mod heap;
pub mod pydict;
pub mod registry;
pub mod walk;

pub use enumerate::{attribute_values, get_instance_dict_fast, lookup, reflective_attribute_values};
pub use heap::{NamespaceEntry, Payload, PyObj, Runtime, TypeObject};
pub use pydict::{DICT_KEYS_UNICODE, PyDictKeysObject, PyDictUnicodeEntry, ReverseDictValuesIter};
pub use registry::{LookupError, NodeTypeRegistry, NodeTypeSet, NodeTypeTest};
pub use walk::{
    Child, classify, get_item_of_list, get_length_of_list, is_list, isinstance_of_ast, walk,
    walk_node_iterative, walk_node_recursive,
};
