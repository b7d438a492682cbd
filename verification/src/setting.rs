//! The settings of a download and their builder.

use vstd::prelude::*;

verus! {

/// A network proxy: its address and credentials.
#[derive(Clone, Debug)]
pub struct NetworkProxy {
    address: String,
    username: String,
    password: String,
}

/// The settings of a download. Directories are given as path text.
#[derive(Clone, Debug)]
pub struct DownloadSetting {
    pub proxy: Option<NetworkProxy>,
    pub progress_polling_frequency_millis: u64,
    pub reset_timeout_millis: u64,
    pub total_connections: u8,
    pub base_save_dir: String,
    pub base_temp_dir: String,
    pub logger_enabled: bool,
}

/// A builder of `DownloadSetting`; every setting left unset takes its default.
pub struct DownloadSettingBuilder {
    proxy: Option<NetworkProxy>,
    progress_polling_milliseconds: Option<u64>,
    total_connections: Option<u8>,
    base_save_dir: Option<String>,
    base_temp_dir: Option<String>,
    reset_timeout_millis: Option<u64>,
    logger: Option<bool>,
}

/// The default progress polling period: 200 ms.
pub const DEFAULT_PROGRESS_POLLING_MILLIS: u64 = 200;

/// The default number of connections: 8.
pub const DEFAULT_TOTAL_CONNECTIONS: u8 = 8;

/// The default reset timeout: 60 s.
pub const DEFAULT_RESET_TIMEOUT_MILLIS: u64 = 60000;

/// The value of a setting: what was set, else the default.
pub open spec fn or_default<T>(set: Option<T>, default: T) -> T {
    match set {
        Some(v) => v,
        None => default,
    }
}

impl View for DownloadSettingBuilder {
    /// What has been set: polling period, connections, save and temp directories,
    /// reset timeout, logger, and proxy.
    type V = (Option<u64>, Option<u8>, Option<Seq<char>>, Option<Seq<char>>, Option<u64>, Option<bool>, Option<NetworkProxy>);

    closed spec fn view(&self) -> Self::V {
        (
            self.progress_polling_milliseconds,
            self.total_connections,
            match self.base_save_dir {
                Some(d) => Some(d@),
                None => None,
            },
            match self.base_temp_dir {
                Some(d) => Some(d@),
                None => None,
            },
            self.reset_timeout_millis,
            self.logger,
            self.proxy,
        )
    }
}

impl Default for DownloadSettingBuilder {
    fn default() -> (b: Self)
        ensures
            b@ == (None::<u64>, None::<u8>, None::<Seq<char>>, None::<Seq<char>>, None::<u64>, None::<bool>, None::<NetworkProxy>),
    {
        DownloadSettingBuilder {
            proxy: None,
            progress_polling_milliseconds: None,
            total_connections: None,
            base_save_dir: None,
            base_temp_dir: None,
            reset_timeout_millis: None,
            logger: None,
        }
    }
}

impl DownloadSetting {
    /// A builder with nothing set.
    pub fn builder() -> (b: DownloadSettingBuilder)
        ensures
            b@ == (None::<u64>, None::<u8>, None::<Seq<char>>, None::<Seq<char>>, None::<u64>, None::<bool>, None::<NetworkProxy>),
    {
        DownloadSettingBuilder::default()
    }
}

impl DownloadSettingBuilder {
    pub fn proxy(self, proxy: NetworkProxy) -> (b: Self)
        ensures
            b@ == (self@.0, self@.1, self@.2, self@.3, self@.4, self@.5, Some(proxy)),
    {
        let mut b = self;
        b.proxy = Some(proxy);
        b
    }

    pub fn progress_polling_milliseconds(self, ms: u64) -> (b: Self)
        ensures
            b@ == (Some(ms), self@.1, self@.2, self@.3, self@.4, self@.5, self@.6),
    {
        let mut b = self;
        b.progress_polling_milliseconds = Some(ms);
        b
    }

    pub fn total_connections(self, count: u8) -> (b: Self)
        ensures
            b@ == (self@.0, Some(count), self@.2, self@.3, self@.4, self@.5, self@.6),
    {
        let mut b = self;
        b.total_connections = Some(count);
        b
    }

    pub fn base_save_dir(self, dir: String) -> (b: Self)
        ensures
            b@ == (self@.0, self@.1, Some(dir@), self@.3, self@.4, self@.5, self@.6),
    {
        let mut b = self;
        b.base_save_dir = Some(dir);
        b
    }

    pub fn base_temp_dir(self, dir: String) -> (b: Self)
        ensures
            b@ == (self@.0, self@.1, self@.2, Some(dir@), self@.4, self@.5, self@.6),
    {
        let mut b = self;
        b.base_temp_dir = Some(dir);
        b
    }

    pub fn with_logger(self) -> (b: Self)
        ensures
            b@ == (self@.0, self@.1, self@.2, self@.3, self@.4, Some(true), self@.6),
    {
        let mut b = self;
        b.logger = Some(true);
        b
    }

    pub fn reset_timeout_millis(self, ms: u64) -> (b: Self)
        ensures
            b@ == (self@.0, self@.1, self@.2, self@.3, Some(ms), self@.5, self@.6),
    {
        let mut b = self;
        b.reset_timeout_millis = Some(ms);
        b
    }

    /// The settings: each as set, else its default (200 ms polling, 8
    /// connections, `./downloads`, `./temp`, 60 s reset timeout, no logger).
    pub fn build(self) -> (s: DownloadSetting)
        ensures
            s.progress_polling_frequency_millis == or_default(self@.0, DEFAULT_PROGRESS_POLLING_MILLIS),
            s.total_connections == or_default(self@.1, DEFAULT_TOTAL_CONNECTIONS),
            s.base_save_dir@ == or_default(self@.2, "./downloads"@),
            s.base_temp_dir@ == or_default(self@.3, "./temp"@),
            s.reset_timeout_millis == or_default(self@.4, DEFAULT_RESET_TIMEOUT_MILLIS),
            s.logger_enabled == or_default(self@.5, false),
            s.proxy == self@.6,
    {
        DownloadSetting {
            proxy: self.proxy,
            progress_polling_frequency_millis: match self.progress_polling_milliseconds {
                Some(ms) => ms,
                None => DEFAULT_PROGRESS_POLLING_MILLIS,
            },
            total_connections: match self.total_connections {
                Some(c) => c,
                None => DEFAULT_TOTAL_CONNECTIONS,
            },
            base_save_dir: match self.base_save_dir {
                Some(d) => d,
                None => String::from_str("./downloads"),
            },
            base_temp_dir: match self.base_temp_dir {
                Some(d) => d,
                None => String::from_str("./temp"),
            },
            reset_timeout_millis: match self.reset_timeout_millis {
                Some(ms) => ms,
                None => DEFAULT_RESET_TIMEOUT_MILLIS,
            },
            logger_enabled: match self.logger {
                Some(b) => b,
                None => false,
            },
        }
    }
}

} // verus!
