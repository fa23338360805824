//! Streaming core of a pipeline shell: the value model, the decisions of the
//! pull stages, and the adaptive table layout and pagination.
pub mod layout;
pub mod paginate;
pub mod space;
pub mod stage;
mod text;
pub mod value;

pub use layout::{
    maybe_truncate_columns, max_per_column, merge_descriptors, values_to_entries, CellStyle,
    Entries, TableView,
};
pub use paginate::{paginate, Page, Paginator, STREAM_PAGE_SIZE, STREAM_TIMEOUT_CHECK_INTERVAL};
pub use space::ColumnSpace;
pub use stage::{
    contains, source_record, ActionGate, AdapterAction, ControlSignal, EntryKind, PipelineError,
    StageOutput, WherePredicate,
};
pub use value::Value;
