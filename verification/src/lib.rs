//! Nested arrays ("decks") stored as a flat item buffer plus a list of marks,
//! with cursors to read and write them level by level.

mod mark;
pub use mark::OrcMark;

mod layout;
pub use layout::{calc_stride_count, calc_strides, mark_pos, stride};

mod deck;
pub use deck::Deck;

mod view;
pub use view::DeckView;

mod writer;
pub use writer::{DeckWriter, WriteCursor};

mod error;
pub use error::{DagError, Error};

mod combinations;
pub use combinations::{Combinations, DeckShape};

mod context;
pub use context::{next_ctx, Arena, ContextArena};

mod registry;
pub use registry::DeckRegistry;

mod dims;
pub use dims::{dims_divide, dims_multiply, dims_pow, OrcDims, ORC_NUM_DIMS};

mod msgpack;

mod graph;
pub use graph::{Graph, Input, Link, Node, Output, IH, LH, NH, OH};

mod graph_io;
pub use graph_io::GRAPH_MSGPACK_VERSION_CURRENT;

mod topo;
mod workflow_io;
mod workflow_read;
mod workflow_law;
pub use workflow_read::WorkflowRead;
pub use workflow_io::{NodeLayout, WorkflowLayout, WORKFLOW_MSGPACK_VERSION_CURRENT};
pub use topo::WalkState;

mod text;
pub use text::fmt_raw_deck;

mod literal;
pub use literal::deck_view_literal;

mod nested;
pub use nested::NestedVec;

mod types;
pub use types::{
    next_handle_id, Arity, OrcItemProxy, OrcPrimitiveTypeId, OrcTypeId, ProxyType, TFunc, TypeInfo, TypeOwner,
};
