//! Core of a log-viewer: a styled-segment model of a text line, a span
//! locator and splitter over that model, four line handlers (filter,
//! structural format, token highlight, search) and the driver that runs
//! every line of a loaded file through the active handlers.

pub mod style;
pub mod text;
pub mod linevec;
pub mod user_settings;
pub mod line_handlers;
pub mod engine;

pub use crate::style::Color;
pub use crate::style::Style;
pub use crate::linevec::LineVec;
pub use crate::linevec::SplitPoint;
pub use crate::linevec::SplitPointPartial;
pub use crate::linevec::linevec_find;
pub use crate::linevec::linevec_split;
pub use crate::user_settings::LogFormat;
pub use crate::user_settings::UserSettings;
pub use crate::line_handlers::LineHandlerType;
pub use crate::line_handlers::LineHandlerError;
pub use crate::line_handlers::FilterLineHandler;
pub use crate::line_handlers::LogFormatLineHandler;
pub use crate::line_handlers::TokenHilightLineHandler;
pub use crate::line_handlers::SearchLineHandler;
pub use crate::engine::PointOfInterest;
pub use crate::engine::OpenedFileMetadata;
pub use crate::engine::VisibleLineOffsets;
pub use crate::engine::recalculate_log_job;
pub use crate::engine::split_lines;
pub use crate::engine::content_metrics;
pub use crate::engine::line_number_label;
