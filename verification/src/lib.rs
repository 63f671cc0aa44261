pub mod text;
pub mod config;
pub mod ledger;
pub mod get_video_list;
pub mod get_download_list;
pub mod catalog;
pub mod bili;
pub mod worker;
pub mod biliup_api;
pub mod upload_video;
pub mod login;
