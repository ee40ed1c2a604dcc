//! Parsing, editing and canonical rewriting of Debian-style `interfaces(5)`
//! network configuration files.
//!
//! Text is parsed by a state machine that merges every directive naming an
//! interface into that interface's single entry, whatever their order. The
//! document renders back to a canonical text, and a save is refused where the
//! file changed on disk since it was read.

pub mod builder;
pub mod directory;
pub mod error;
pub mod interface;
pub mod merge_order;
pub mod natural;
pub mod network_interfaces;
pub mod option;
pub mod parser;
pub mod render_order;
pub mod round_trip;
pub mod serializer;
pub mod text;

pub use builder::InterfaceBuilder;
pub use directory::Directory;
pub use error::{FamilyParseError, MethodParseError, NetworkInterfacesError, ParserError};
pub use interface::{Family, Interface, Mapping, Method};
pub use natural::natural;
pub use network_interfaces::NetworkInterfaces;
pub use option::InterfaceOption;
pub use parser::{ParsedFile, Parser};
