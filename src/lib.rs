//! A scene graph: a tree of nodes whose global transforms and bounding boxes
//! are derived top-down and bottom-up in an update pass, with lifecycle and
//! render callbacks dispatched to each node's component in pre-order.

pub mod dimensions;
pub mod transforms;
pub mod nodes;
