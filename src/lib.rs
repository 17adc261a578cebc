mod archive;
pub mod block_sparse;
pub mod compressed_rain_radar_values;
pub mod crawl;
pub mod cross_product;
pub mod dwd_rain_radar_values;
pub mod rain_radar_values;
pub mod rv_format;
pub mod statistics;

pub use compressed_rain_radar_values::CompressedRainRadarValues;
pub use cross_product::{cross_product, CrossProduct, Range};
pub use dwd_rain_radar_values::DWDRainRadarValues;
pub use rain_radar_values::{pixel_color, slot_times, time_slot, RainRadarValues, TimeInformation};
pub use rv_format::{DecodeError, WallTime};
pub use statistics::{combine, frame_statistics, RadarStatistics};
pub use crawl::crawl_times;
