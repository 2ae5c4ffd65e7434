//! Runtime configuration of the server, read from the command line.

use vstd::prelude::*;

use crate::bake_args::{text_option, MAX_ZOOM};
use crate::text::{parse_unsigned, push_text, same_text, text_views, unsigned_value};

verus! {

/// How the server runs.
#[derive(Debug, Clone)]
pub struct ServeConfig {
    pub addr: String,
    pub base_url: Option<String>,
    /// If set, every request must carry this key as its bearer token.
    pub api_key: Option<String>,
    /// Allowed origins. Without any, cross-origin requests are denied; `*` allows
    /// all.
    pub cors_origins: Vec<String>,
    /// Per-request timeout in seconds.
    pub request_timeout: u64,
    /// Maximum number of requests in flight.
    pub max_in_flight: usize,
    /// Requests beyond this zoom level are rejected.
    pub max_zoom_request: u8,
    /// Whether metrics are exposed.
    pub metrics_enabled: bool,
}

/// The configuration with its texts as sequences, and the archives to serve.
#[verifier::ext_equal]
pub struct ConfigView {
    pub paths: Seq<Seq<char>>,
    pub addr: Seq<char>,
    pub base_url: Option<Seq<char>>,
    pub api_key: Option<Seq<char>>,
    pub cors_origins: Seq<Seq<char>>,
    pub request_timeout: u64,
    pub max_in_flight: usize,
    pub max_zoom_request: u8,
    pub metrics_enabled: bool,
}

impl ServeConfig {
    pub open spec fn with_paths(&self, paths: Seq<Seq<char>>) -> ConfigView {
        ConfigView {
            paths,
            addr: self.addr@,
            base_url: text_option(self.base_url),
            api_key: text_option(self.api_key),
            cors_origins: text_views(self.cors_origins@),
            request_timeout: self.request_timeout,
            max_in_flight: self.max_in_flight,
            max_zoom_request: self.max_zoom_request,
            metrics_enabled: self.metrics_enabled,
        }
    }
}

/// The configuration without any arguments.
pub open spec fn default_config() -> ConfigView {
    ConfigView {
        paths: Seq::empty(),
        addr: "0.0.0.0:3000"@,
        base_url: None,
        api_key: None,
        cors_origins: Seq::empty(),
        request_timeout: 10,
        max_in_flight: 512,
        max_zoom_request: 24,
        metrics_enabled: false,
    }
}

impl Default for ServeConfig {
    fn default() -> (c: ServeConfig)
        ensures
            c.with_paths(Seq::empty()) == default_config(),
    {
        let c = ServeConfig {
            addr: "0.0.0.0:3000".to_owned(),
            base_url: None,
            api_key: None,
            cors_origins: Vec::new(),
            request_timeout: 10,
            max_in_flight: 512,
            max_zoom_request: 24,
            metrics_enabled: false,
        };
        assert(c.with_paths(Seq::empty()) =~= default_config());
        c
    }
}

/// The flags that take a value.
pub enum ServeFlag {
    Addr,
    BaseUrl,
    ApiKey,
    Cors,
    Timeout,
    MaxInFlight,
    MaxZoom,
}

/// How a flag is written.
pub open spec fn flag_text(f: ServeFlag) -> Seq<char> {
    match f {
        ServeFlag::Addr => "--addr"@,
        ServeFlag::BaseUrl => "--base-url"@,
        ServeFlag::ApiKey => "--api-key"@,
        ServeFlag::Cors => "--cors"@,
        ServeFlag::Timeout => "--timeout"@,
        ServeFlag::MaxInFlight => "--max-in-flight"@,
        ServeFlag::MaxZoom => "--max-zoom"@,
    }
}

/// The flag that an argument is, if it is one that takes a value.
pub open spec fn flag_of(s: Seq<char>) -> Option<ServeFlag> {
    if s == "--addr"@ {
        Some(ServeFlag::Addr)
    } else if s == "--base-url"@ {
        Some(ServeFlag::BaseUrl)
    } else if s == "--api-key"@ {
        Some(ServeFlag::ApiKey)
    } else if s == "--cors"@ {
        Some(ServeFlag::Cors)
    } else if s == "--timeout"@ {
        Some(ServeFlag::Timeout)
    } else if s == "--max-in-flight"@ {
        Some(ServeFlag::MaxInFlight)
    } else if s == "--max-zoom"@ {
        Some(ServeFlag::MaxZoom)
    } else {
        None
    }
}

/// The configuration with the value of a flag; the error where the value is no
/// number in range.
pub open spec fn with_value(c: ConfigView, f: ServeFlag, v: Seq<char>) -> Result<
    ConfigView,
    Seq<char>,
> {
    match f {
        ServeFlag::Addr => Ok(ConfigView { addr: v, ..c }),
        ServeFlag::BaseUrl => Ok(ConfigView { base_url: Some(v), ..c }),
        ServeFlag::ApiKey => Ok(ConfigView { api_key: Some(v), ..c }),
        ServeFlag::Cors => Ok(ConfigView { cors_origins: c.cors_origins.push(v), ..c }),
        ServeFlag::Timeout => match unsigned_value(v, u64::MAX as int) {
            Some(n) => Ok(ConfigView { request_timeout: n as u64, ..c }),
            None => Err("--timeout must be a number of seconds"@),
        },
        ServeFlag::MaxInFlight => match unsigned_value(v, usize::MAX as int) {
            Some(n) => Ok(ConfigView { max_in_flight: n as usize, ..c }),
            None => Err("--max-in-flight must be an integer"@),
        },
        ServeFlag::MaxZoom => match unsigned_value(v, MAX_ZOOM as int) {
            Some(n) => Ok(ConfigView { max_zoom_request: n as u8, ..c }),
            None => Err("--max-zoom must be 0-30"@),
        },
    }
}

/// The configuration after the arguments from position `i` on. What is no flag is
/// the path of an archive.
pub open spec fn configured(c: ConfigView, args: Seq<Seq<char>>, i: int) -> Result<
    ConfigView,
    Seq<char>,
>
    decreases args.len() - i,
{
    if i >= args.len() {
        Ok(c)
    } else {
        match flag_of(args[i]) {
            Some(f) => if i + 1 < args.len() {
                match with_value(c, f, args[i + 1]) {
                    Ok(next) => configured(next, args, i + 2),
                    Err(e) => Err(e),
                }
            } else {
                Err(flag_text(f) + " requires a value"@)
            },
            None => if args[i] == "--metrics"@ {
                configured(ConfigView { metrics_enabled: true, ..c }, args, i + 1)
            } else {
                configured(ConfigView { paths: c.paths.push(args[i]), ..c }, args, i + 1)
            },
        }
    }
}

/// The usage text.
pub open spec fn usage_text() -> Seq<char> {
    "usage: lm-serve <file.pmtiles> [more.pmtiles ...]\n  [--addr host:port] [--base-url http://...] [--api-key <token>]\n  [--cors <origin>] [--timeout <secs>] [--max-in-flight <n>]\n  [--max-zoom <0-30>] [--metrics]"@
}

/// What the arguments come to; without an archive the answer is the usage text.
pub open spec fn config_of(args: Seq<Seq<char>>) -> Result<ConfigView, Seq<char>> {
    match configured(default_config(), args, 0) {
        Err(e) => Err(e),
        Ok(c) => if c.paths.len() == 0 {
            Err(usage_text())
        } else {
            Ok(c)
        },
    }
}

fn flag_named(s: &str) -> (f: Option<ServeFlag>)
    ensures
        f == flag_of(s@),
{
    if same_text(s, "--addr") {
        Some(ServeFlag::Addr)
    } else if same_text(s, "--base-url") {
        Some(ServeFlag::BaseUrl)
    } else if same_text(s, "--api-key") {
        Some(ServeFlag::ApiKey)
    } else if same_text(s, "--cors") {
        Some(ServeFlag::Cors)
    } else if same_text(s, "--timeout") {
        Some(ServeFlag::Timeout)
    } else if same_text(s, "--max-in-flight") {
        Some(ServeFlag::MaxInFlight)
    } else if same_text(s, "--max-zoom") {
        Some(ServeFlag::MaxZoom)
    } else {
        None
    }
}

fn flag_name(f: &ServeFlag) -> (s: &'static str)
    ensures
        s@ == flag_text(*f),
{
    match f {
        ServeFlag::Addr => "--addr",
        ServeFlag::BaseUrl => "--base-url",
        ServeFlag::ApiKey => "--api-key",
        ServeFlag::Cors => "--cors",
        ServeFlag::Timeout => "--timeout",
        ServeFlag::MaxInFlight => "--max-in-flight",
        ServeFlag::MaxZoom => "--max-zoom",
    }
}

impl ServeConfig {
    fn take_value(self, f: &ServeFlag, v: &String, Ghost(paths): Ghost<Seq<Seq<char>>>) -> (r:
        Result<ServeConfig, String>)
        ensures
            match with_value(self.with_paths(paths), *f, v@) {
                Ok(c) => r matches Ok(x) && x.with_paths(paths) == c,
                Err(e) => r matches Err(x) && x@ == e,
            },
    {
        let mut cfg = self;
        let ghost before = cfg.with_paths(paths);
        match f {
            ServeFlag::Addr => {
                cfg.addr = v.clone();
            },
            ServeFlag::BaseUrl => {
                cfg.base_url = Some(v.clone());
            },
            ServeFlag::ApiKey => {
                cfg.api_key = Some(v.clone());
            },
            ServeFlag::Cors => {
                cfg.cors_origins.push(v.clone());
                assert(text_views(cfg.cors_origins@) =~= before.cors_origins.push(v@));
            },
            ServeFlag::Timeout => match parse_unsigned(v.as_str(), u64::MAX) {
                Some(n) => {
                    cfg.request_timeout = n;
                },
                None => {
                    return Err("--timeout must be a number of seconds".to_owned());
                },
            },
            ServeFlag::MaxInFlight => match parse_unsigned(v.as_str(), usize::MAX as u64) {
                Some(n) => {
                    cfg.max_in_flight = n as usize;
                },
                None => {
                    return Err("--max-in-flight must be an integer".to_owned());
                },
            },
            ServeFlag::MaxZoom => match parse_unsigned(v.as_str(), MAX_ZOOM) {
                Some(n) => {
                    cfg.max_zoom_request = n as u8;
                },
                None => {
                    return Err("--max-zoom must be 0-30".to_owned());
                },
            },
        }
        Ok(cfg)
    }

    /// Read the arguments: the archives to serve and the configuration, or what is
    /// wrong with the arguments.
    pub fn from_args(args: &Vec<String>) -> (r: Result<(Vec<String>, ServeConfig), String>)
        ensures
            match config_of(text_views(args@)) {
                Ok(c) => r matches Ok((paths, cfg)) && cfg.with_paths(text_views(paths@)) == c,
                Err(e) => r matches Err(x) && x@ == e,
            },
    {
        let ghost all = text_views(args@);
        let mut paths: Vec<String> = Vec::new();
        let mut cfg = ServeConfig::default();
        let mut i: usize = 0;
        proof {
            assert(text_views(paths@) =~= Seq::<Seq<char>>::empty());
        }
        while i < args.len()
            invariant
                i <= args.len(),
                all == text_views(args@),
                configured(default_config(), all, 0) == configured(
                    cfg.with_paths(text_views(paths@)),
                    all,
                    i as int,
                ),
            decreases args.len() - i,
        {
            let ghost before = cfg.with_paths(text_views(paths@));
            assert(all[i as int] == args@[i as int]@);
            match flag_named(args[i].as_str()) {
                Some(f) => {
                    if i + 1 >= args.len() {
                        let mut e = flag_name(&f).to_owned();
                        push_text(&mut e, " requires a value");
                        return Err(e);
                    }
                    assert(all[i + 1] == args@[i + 1]@);
                    match cfg.take_value(&f, &args[i + 1], Ghost(text_views(paths@))) {
                        Err(e) => {
                            return Err(e);
                        },
                        Ok(next) => {
                            cfg = next;
                        },
                    }
                    i = i + 2;
                },
                None => {
                    if same_text(args[i].as_str(), "--metrics") {
                        cfg.metrics_enabled = true;
                    } else {
                        paths.push(args[i].clone());
                        assert(text_views(paths@) =~= before.paths.push(all[i as int]));
                    }
                    i = i + 1;
                },
            }
        }
        if paths.len() == 0 {
            return Err(
                "usage: lm-serve <file.pmtiles> [more.pmtiles ...]\n  [--addr host:port] [--base-url http://...] [--api-key <token>]\n  [--cors <origin>] [--timeout <secs>] [--max-in-flight <n>]\n  [--max-zoom <0-30>] [--metrics]".to_owned(),
            );
        }
        Ok((paths, cfg))
    }

    /// The address under which the server is reached.
    pub open spec fn public_url(&self) -> Seq<char> {
        match self.base_url {
            Some(u) => u@,
            None => "http://"@ + self.addr@,
        }
    }

    /// The address under which the server is reached: the configured one, or that
    /// of the listener.
    pub fn base(&self) -> (r: String)
        ensures
            r@ == self.public_url(),
    {
        match &self.base_url {
            Some(u) => u.clone(),
            None => {
                let mut r = "http://".to_owned();
                push_text(&mut r, self.addr.as_str());
                r
            },
        }
    }
}

/// The server is reached under the address that is given, or else under that of its
/// listener.
pub proof fn the_given_address_is_taken(c: ServeConfig)
    ensures
        c.base_url is Some ==> c.public_url() == c.base_url->0@,
        c.base_url is None ==> c.public_url() == "http://"@ + c.addr@,
{
}

} // verus!
