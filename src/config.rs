//! The tool's configuration: which boards to back up and where, and the
//! messaging service's application credentials.

use vstd::prelude::*;

verus! {

/// Settings of the project-board backup.
pub struct TrelloConfig {
    pub auth_cookie: String,
    pub board_ids: Vec<String>,
    pub out_path: String,
}

/// Application credentials for the messaging service.
pub struct TelegramConfig {
    pub api_id: i32,
    pub app_hash: String,
}

/// The whole configuration.
pub struct LupinConfig {
    pub trello_config: TrelloConfig,
    pub telegram_config: TelegramConfig,
}

} // verus!
