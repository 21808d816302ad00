//! An i3-style container tree: nodes, focus order, floating groups and the commands on them.

pub mod accounts;
pub mod arena;
pub mod arrival;
pub mod arrange;
pub mod axis;
pub mod bearings;
pub mod cache;
pub mod captions;
pub mod cleanup;
pub mod column;
pub mod columns;
pub mod commit;
pub mod detach;
pub mod drags;
pub mod fitting;
pub mod floats;
pub mod focus;
pub mod fractions;
pub mod gauges;
pub mod grab;
pub mod insert;
pub mod invariants;
pub mod landings;
pub mod layouts;
pub mod leafcache;
pub mod links;
pub mod marks;
pub mod measure;
pub mod movement;
pub mod moves;
pub mod node;
pub mod openings;
pub mod orders;
pub mod passes;
pub mod paths;
pub mod preview;
pub mod project;
pub mod query;
pub mod report;
pub mod resize;
pub mod restore;
pub mod ring;
pub mod scene;
pub mod seat;
pub mod sides;
pub mod sights;
pub mod space;
pub mod split;
pub mod steering;
pub mod stacks;
pub mod store;
pub mod subtree;
pub mod swap;
pub mod tabs;
pub mod tidying;
pub mod tile;
pub mod trades;
pub mod tree;
pub mod upkeep;
pub mod walk;
pub mod windows;
