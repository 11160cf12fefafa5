pub mod cache;
pub mod trove;
pub mod trove_feed;
pub mod util;

pub use cache::Cache;
pub use trove::Trove;
pub use trove::TroveGame;
pub use trove_feed::TroveFeed;
