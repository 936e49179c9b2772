use vstd::prelude::*;
use vstd::string::*;

verus! {

/// Daemon configuration: where the model and the socket live, and how
/// requests are decoded.
pub struct Config {
    pub model_path: String,
    pub context_window: usize,
    pub beam_width: usize,
    pub quantization: bool,
    pub socket_path: String,
    pub gpu_device: Option<usize>,
    pub log_level: String,
}

/// Why a configuration could not be loaded or accepted.
pub enum ConfigError {
    Io(String),
    Parse(String),
    Validation(String),
}

/// Which validation rule a configuration breaks first.
pub enum ConfigFault {
    MissingModel,
    ZeroContextWindow,
    ZeroBeamWidth,
    BadLogLevel,
}

pub open spec fn is_log_level_spec(s: Seq<char>) -> bool {
    s == "error"@ || s == "warn"@ || s == "info"@ || s == "debug"@ || s == "trace"@
}

/// The first rule that `c` breaks, given whether its model file exists.
pub open spec fn config_fault(c: &Config, model_exists: bool) -> Option<ConfigFault> {
    if !model_exists {
        Some(ConfigFault::MissingModel)
    } else if c.context_window == 0 {
        Some(ConfigFault::ZeroContextWindow)
    } else if c.beam_width == 0 {
        Some(ConfigFault::ZeroBeamWidth)
    } else if !is_log_level_spec(c.log_level@) {
        Some(ConfigFault::BadLogLevel)
    } else {
        None
    }
}

/// A configuration that the serving core may start with.
pub open spec fn config_valid(c: &Config) -> bool {
    c.context_window >= 1 && c.beam_width >= 1 && is_log_level_spec(c.log_level@)
}

/// Character-wise equality of two strings.
pub fn str_equal(a: &str, b: &str) -> (r: bool)
    ensures
        r == (a@ == b@),
{
    let n = a.unicode_len();
    if n != b.unicode_len() {
        return false;
    }
    let mut i: usize = 0;
    while i < n
        invariant
            n == a@.len(),
            n == b@.len(),
            i <= n,
            forall|j: int| 0 <= j < i ==> a@[j] == b@[j],
        decreases n - i,
    {
        if a.get_char(i) != b.get_char(i) {
            return false;
        }
        i = i + 1;
    }
    assert(a@ =~= b@);
    true
}

/// Whether `s` names one of the accepted log levels.
pub fn is_log_level(s: &str) -> (r: bool)
    ensures
        r == is_log_level_spec(s@),
{
    str_equal(s, "error") || str_equal(s, "warn") || str_equal(s, "info") || str_equal(
        s,
        "debug",
    ) || str_equal(s, "trace")
}

impl ConfigFault {
    /// The human-readable explanation of this fault.
    pub fn message(&self) -> String {
        match self {
            ConfigFault::MissingModel => "Model path does not exist".to_string(),
            ConfigFault::ZeroContextWindow => "Context window must be greater than 0".to_string(),
            ConfigFault::ZeroBeamWidth => "Beam width must be greater than 0".to_string(),
            ConfigFault::BadLogLevel => "Log level must be one of error, warn, info, debug, trace".to_string(),
        }
    }
}

impl Config {
    /// The first rule this configuration breaks, if any.
    pub fn check(&self, model_exists: bool) -> (r: Option<ConfigFault>)
        ensures
            r == config_fault(self, model_exists),
    {
        if !model_exists {
            Some(ConfigFault::MissingModel)
        } else if self.context_window == 0 {
            Some(ConfigFault::ZeroContextWindow)
        } else if self.beam_width == 0 {
            Some(ConfigFault::ZeroBeamWidth)
        } else if !is_log_level(self.log_level.as_str()) {
            Some(ConfigFault::BadLogLevel)
        } else {
            None
        }
    }

    /// Accepts the configuration exactly when its model file exists and it
    /// is valid; otherwise reports the first rule broken.
    pub fn validate(&self, model_exists: bool) -> (r: Result<(), ConfigError>)
        ensures
            r is Ok <==> (model_exists && config_valid(self)),
            r is Ok <==> config_fault(self, model_exists) is None,
            r is Err ==> r->Err_0 is Validation,
    {
        match self.check(model_exists) {
            None => Ok(()),
            Some(f) => Err(ConfigError::Validation(f.message())),
        }
    }
}

impl Default for Config {
    fn default() -> (r: Config)
        ensures
            r.model_path@ == "model.onnx"@,
            r.context_window == 128,
            r.beam_width == 1,
            !r.quantization,
            r.socket_path@ == "/tmp/ai_autocorrect.sock"@,
            r.gpu_device is None,
            r.log_level@ == "info"@,
            config_valid(&r),
    {
        let r = Config {
            model_path: String::from_str("model.onnx"),
            context_window: 128,
            beam_width: 1,
            quantization: false,
            socket_path: String::from_str("/tmp/ai_autocorrect.sock"),
            gpu_device: None,
            log_level: String::from_str("info"),
        };
        proof {
            reveal_strlit("info");
        }
        r
    }
}

} // verus!
