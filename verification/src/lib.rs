pub mod browser;
pub mod css;
pub mod dom;
pub mod error;
pub mod html;
pub mod js;
pub mod layout;
pub mod network;
pub mod oldjs;
pub mod render;
pub mod resources;
pub mod strmap;
pub mod style;
pub mod text;
