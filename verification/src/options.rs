//! The choices an operator makes for a run.

use vstd::prelude::*;
use vstd::string::StringSliceAdditionalSpecFns;
use vstd::utf8::is_ascii_chars_encode_utf8;
use crate::text::bytes_eq;

verus! {

/// The structural metric that weighs a unit.
#[derive(Clone, Copy, Debug, PartialEq, Eq, Structural)]
pub enum Complexity {
    Cyclomatic,
    Cognitive,
}

/// The schema of the coverage report.
#[derive(Clone, Copy, Debug, PartialEq, Eq, Structural)]
pub enum JsonFormat {
    /// A flat list of files, each with its lines.
    Coveralls,
    /// A tree of directories with files at its leaves.
    Covdir,
}

/// What a row of the metric table stands for.
#[derive(Clone, Copy, Debug, PartialEq, Eq, Structural)]
pub enum Mode {
    /// One row per file.
    Files,
    /// One row per function.
    Functions,
}

/// The score by which the complex units are ranked.
#[derive(Clone, Copy, Debug, PartialEq, Eq, Structural)]
pub enum Sort {
    WccPlain,
    WccQuantized,
    Crap,
    Skunk,
}

impl Complexity {
    /// The name of the metric on the command line.
    pub open spec fn spec_name(self) -> &'static str {
        match self {
            Complexity::Cyclomatic => "cyclomatic",
            Complexity::Cognitive => "cognitive",
        }
    }

    /// The metric that a name stands for.
    pub open spec fn spec_parse(name: Seq<u8>) -> Option<Complexity> {
        if name == "cyclomatic".spec_bytes() {
            Some(Complexity::Cyclomatic)
        } else if name == "cognitive".spec_bytes() {
            Some(Complexity::Cognitive)
        } else {
            None
        }
    }

    /// The name of the metric on the command line.
    pub fn name(&self) -> (r: &'static str)
        ensures
            r == self.spec_name(),
    {
        match self {
            Complexity::Cyclomatic => "cyclomatic",
            Complexity::Cognitive => "cognitive",
        }
    }

    /// The metric that a name stands for; `None` for any other text.
    pub fn parse(name: &str) -> (r: Option<Complexity>)
        ensures
            r == Complexity::spec_parse(name.spec_bytes()),
    {
        let bytes = name.as_bytes();
        if bytes_eq(bytes, "cyclomatic".as_bytes()) {
            Some(Complexity::Cyclomatic)
        } else if bytes_eq(bytes, "cognitive".as_bytes()) {
            Some(Complexity::Cognitive)
        } else {
            None
        }
    }

    /// Every metric, the default first.
    pub fn all() -> (r: Vec<Complexity>)
        ensures
            r@ == seq![Complexity::Cyclomatic, Complexity::Cognitive],
    {
        vec![Complexity::Cyclomatic, Complexity::Cognitive]
    }

    /// A metric is read back from its name.
    pub proof fn lemma_name_parses(self)
        ensures
            Complexity::spec_parse(self.spec_name().spec_bytes()) == Some(self),
    {
        reveal_strlit("cyclomatic");
        reveal_strlit("cognitive");
        is_ascii_chars_encode_utf8("cyclomatic"@);
        is_ascii_chars_encode_utf8("cognitive"@);
    }
}

impl Default for Complexity {
    fn default() -> (r: Complexity)
        ensures
            r == Complexity::Cyclomatic,
    {
        Complexity::Cyclomatic
    }
}

impl JsonFormat {
    /// The name of the schema on the command line.
    pub open spec fn spec_name(self) -> &'static str {
        match self {
            JsonFormat::Coveralls => "coveralls",
            JsonFormat::Covdir => "covdir",
        }
    }

    /// The schema that a name stands for.
    pub open spec fn spec_parse(name: Seq<u8>) -> Option<JsonFormat> {
        if name == "coveralls".spec_bytes() {
            Some(JsonFormat::Coveralls)
        } else if name == "covdir".spec_bytes() {
            Some(JsonFormat::Covdir)
        } else {
            None
        }
    }

    /// The name of the schema on the command line.
    pub fn name(&self) -> (r: &'static str)
        ensures
            r == self.spec_name(),
    {
        match self {
            JsonFormat::Coveralls => "coveralls",
            JsonFormat::Covdir => "covdir",
        }
    }

    /// The schema that a name stands for; `None` for any other text.
    pub fn parse(name: &str) -> (r: Option<JsonFormat>)
        ensures
            r == JsonFormat::spec_parse(name.spec_bytes()),
    {
        let bytes = name.as_bytes();
        if bytes_eq(bytes, "coveralls".as_bytes()) {
            Some(JsonFormat::Coveralls)
        } else if bytes_eq(bytes, "covdir".as_bytes()) {
            Some(JsonFormat::Covdir)
        } else {
            None
        }
    }

    /// Every schema, the default first.
    pub fn all() -> (r: Vec<JsonFormat>)
        ensures
            r@ == seq![JsonFormat::Coveralls, JsonFormat::Covdir],
    {
        vec![JsonFormat::Coveralls, JsonFormat::Covdir]
    }

    /// A schema is read back from its name.
    pub proof fn lemma_name_parses(self)
        ensures
            JsonFormat::spec_parse(self.spec_name().spec_bytes()) == Some(self),
    {
        reveal_strlit("coveralls");
        reveal_strlit("covdir");
        is_ascii_chars_encode_utf8("coveralls"@);
        is_ascii_chars_encode_utf8("covdir"@);
    }
}

impl Default for JsonFormat {
    fn default() -> (r: JsonFormat)
        ensures
            r == JsonFormat::Coveralls,
    {
        JsonFormat::Coveralls
    }
}

impl Mode {
    /// The name of the mode on the command line.
    pub open spec fn spec_name(self) -> &'static str {
        match self {
            Mode::Files => "files",
            Mode::Functions => "functions",
        }
    }

    /// The mode that a name stands for.
    pub open spec fn spec_parse(name: Seq<u8>) -> Option<Mode> {
        if name == "files".spec_bytes() {
            Some(Mode::Files)
        } else if name == "functions".spec_bytes() {
            Some(Mode::Functions)
        } else {
            None
        }
    }

    /// The name of the mode on the command line.
    pub fn name(&self) -> (r: &'static str)
        ensures
            r == self.spec_name(),
    {
        match self {
            Mode::Files => "files",
            Mode::Functions => "functions",
        }
    }

    /// The mode that a name stands for; `None` for any other text.
    pub fn parse(name: &str) -> (r: Option<Mode>)
        ensures
            r == Mode::spec_parse(name.spec_bytes()),
    {
        let bytes = name.as_bytes();
        if bytes_eq(bytes, "files".as_bytes()) {
            Some(Mode::Files)
        } else if bytes_eq(bytes, "functions".as_bytes()) {
            Some(Mode::Functions)
        } else {
            None
        }
    }

    /// Every mode, the default first.
    pub fn all() -> (r: Vec<Mode>)
        ensures
            r@ == seq![Mode::Files, Mode::Functions],
    {
        vec![Mode::Files, Mode::Functions]
    }

    /// A mode is read back from its name.
    pub proof fn lemma_name_parses(self)
        ensures
            Mode::spec_parse(self.spec_name().spec_bytes()) == Some(self),
    {
        reveal_strlit("files");
        reveal_strlit("functions");
        is_ascii_chars_encode_utf8("files"@);
        is_ascii_chars_encode_utf8("functions"@);
    }
}

impl Default for Mode {
    fn default() -> (r: Mode)
        ensures
            r == Mode::Files,
    {
        Mode::Files
    }
}

impl Sort {
    /// The name of the score on the command line.
    pub open spec fn spec_name(self) -> &'static str {
        match self {
            Sort::WccPlain => "wcc_plain",
            Sort::WccQuantized => "wcc_quantized",
            Sort::Crap => "crap",
            Sort::Skunk => "skunk",
        }
    }

    /// The score that a name stands for.
    pub open spec fn spec_parse(name: Seq<u8>) -> Option<Sort> {
        if name == "wcc_plain".spec_bytes() {
            Some(Sort::WccPlain)
        } else if name == "wcc_quantized".spec_bytes() {
            Some(Sort::WccQuantized)
        } else if name == "crap".spec_bytes() {
            Some(Sort::Crap)
        } else if name == "skunk".spec_bytes() {
            Some(Sort::Skunk)
        } else {
            None
        }
    }

    /// The name of the score on the command line.
    pub fn name(&self) -> (r: &'static str)
        ensures
            r == self.spec_name(),
    {
        match self {
            Sort::WccPlain => "wcc_plain",
            Sort::WccQuantized => "wcc_quantized",
            Sort::Crap => "crap",
            Sort::Skunk => "skunk",
        }
    }

    /// The score that a name stands for; `None` for any other text.
    pub fn parse(name: &str) -> (r: Option<Sort>)
        ensures
            r == Sort::spec_parse(name.spec_bytes()),
    {
        let bytes = name.as_bytes();
        if bytes_eq(bytes, "wcc_plain".as_bytes()) {
            Some(Sort::WccPlain)
        } else if bytes_eq(bytes, "wcc_quantized".as_bytes()) {
            Some(Sort::WccQuantized)
        } else if bytes_eq(bytes, "crap".as_bytes()) {
            Some(Sort::Crap)
        } else if bytes_eq(bytes, "skunk".as_bytes()) {
            Some(Sort::Skunk)
        } else {
            None
        }
    }

    /// Every score, the default first.
    pub fn all() -> (r: Vec<Sort>)
        ensures
            r@ == seq![Sort::WccPlain, Sort::WccQuantized, Sort::Crap, Sort::Skunk],
    {
        vec![Sort::WccPlain, Sort::WccQuantized, Sort::Crap, Sort::Skunk]
    }

    /// A score is read back from its name.
    pub proof fn lemma_name_parses(self)
        ensures
            Sort::spec_parse(self.spec_name().spec_bytes()) == Some(self),
    {
        reveal_strlit("wcc_plain");
        reveal_strlit("wcc_quantized");
        reveal_strlit("crap");
        reveal_strlit("skunk");
        is_ascii_chars_encode_utf8("wcc_plain"@);
        is_ascii_chars_encode_utf8("wcc_quantized"@);
        is_ascii_chars_encode_utf8("crap"@);
        is_ascii_chars_encode_utf8("skunk"@);
    }
}

impl Default for Sort {
    fn default() -> (r: Sort)
        ensures
            r == Sort::WccPlain,
    {
        Sort::WccPlain
    }
}

} // verus!
