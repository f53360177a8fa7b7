//! Command line and logging level.

use crate::text::{chars_of, lower, lowered, same_text, texts};
use vstd::prelude::*;
use vstd::string::*;

verus! {

/// The place of the first `--config` among the arguments, or their number.
pub open spec fn flag_position(args: Seq<Seq<char>>) -> int
    decreases args.len(),
{
    if args.len() == 0 || args[0] == "--config"@ {
        0
    } else {
        1 + flag_position(args.drop_first())
    }
}

/// The settings file that the arguments name: the one behind the first `--config`, else the
/// default.
pub open spec fn config_path(args: Seq<Seq<char>>) -> Seq<char> {
    let at = flag_position(args);
    if 0 <= at && at + 1 < args.len() {
        args[at + 1]
    } else {
        "config.yaml"@
    }
}

proof fn lemma_flag_position(args: Seq<Seq<char>>, at: int)
    requires
        0 <= at <= args.len(),
        forall|i: int| 0 <= i < at ==> args[i] != "--config"@,
        at < args.len() ==> args[at] == "--config"@,
    ensures
        flag_position(args) == at,
    decreases at,
{
    if at > 0 {
        assert(args[0] != "--config"@);
        let rest = args.drop_first();
        assert forall|i: int| 0 <= i < at - 1 implies rest[i] != "--config"@ by {
            assert(rest[i] == args[i + 1]);
        }
        if at < args.len() {
            assert(rest[at - 1] == args[at]);
        }
        lemma_flag_position(rest, at - 1);
    }
}

/// The settings file that the arguments, without the program's name, name.
pub fn parse_config_path(args: &Vec<String>) -> (path: String)
    ensures
        path@ == config_path(texts(args@)),
{
    let mut i: usize = 0;
    while i < args.len() && !same_text(args[i].as_str(), "--config")
        invariant
            i <= args@.len(),
            forall|j: int| 0 <= j < i ==> texts(args@)[j] != "--config"@,
        decreases args@.len() - i,
    {
        i += 1;
    }
    proof {
        lemma_flag_position(texts(args@), i as int);
    }
    if i < args.len() && args.len() - i > 1 {
        args[i + 1].clone()
    } else {
        "config.yaml".to_owned()
    }
}

/// The logging level that a setting stands for, without regard to case.
pub open spec fn level_name(setting: Seq<char>) -> Seq<char> {
    let word = lowered(setting);
    if word == "trace"@ {
        "trace"@
    } else if word == "debug"@ {
        "debug"@
    } else if word == "warn"@ || word == "warning"@ {
        "warn"@
    } else if word == "error"@ {
        "error"@
    } else {
        "info"@
    }
}

/// The logging level of a setting.
pub fn logging_level(setting: &str) -> (level: &'static str)
    ensures
        level@ == level_name(setting@),
{
    let chars = chars_of(setting);
    let word = lower(chars.as_slice());
    let word = word.as_str();
    if same_text(word, "trace") {
        "trace"
    } else if same_text(word, "debug") {
        "debug"
    } else if same_text(word, "warn") || same_text(word, "warning") {
        "warn"
    } else if same_text(word, "error") {
        "error"
    } else {
        "info"
    }
}

/// The settings file is the argument behind the first flag, whatever comes after it; without the
/// flag, or where nothing stands behind it, it is the default.
pub proof fn law_first_flag_counts(
    before: Seq<Seq<char>>,
    path: Seq<char>,
    rest: Seq<Seq<char>>,
)
    requires
        !before.contains("--config"@),
    ensures
        config_path(before.push("--config"@).push(path) + rest) == path,
        config_path(before) == "config.yaml"@,
        config_path(before.push("--config"@)) == "config.yaml"@,
{
    let at = before.len() as int;
    assert forall|i: int| 0 <= i < at implies before[i] != "--config"@ by {
        assert(before.contains(before[i]));
    }
    let args = before.push("--config"@).push(path) + rest;
    assert forall|i: int| 0 <= i < at implies args[i] != "--config"@ by {
        assert(args[i] == before[i]);
    }
    assert(args[at] == "--config"@ && args[at + 1] == path);
    lemma_flag_position(args, at);
    lemma_flag_position(before, at);
    let flag = before.push("--config"@);
    assert forall|i: int| 0 <= i < at implies flag[i] != "--config"@ by {
        assert(flag[i] == before[i]);
    }
    lemma_flag_position(flag, at);
}

/// A setting names its level in whatever case; what names none is the level of information.
pub proof fn law_level_names(setting: Seq<char>)
    ensures
        ({
            let word = lowered(setting);
            let known = word == "trace"@ || word == "debug"@ || word == "warn"@ || word
                == "warning"@ || word == "error"@;
            &&& word == "trace"@ ==> level_name(setting) == "trace"@
            &&& word == "debug"@ ==> level_name(setting) == "debug"@
            &&& word == "warn"@ || word == "warning"@ ==> level_name(setting) == "warn"@
            &&& word == "error"@ ==> level_name(setting) == "error"@
            &&& !known ==> level_name(setting) == "info"@
        }),
{
    reveal_strlit("trace");
    reveal_strlit("debug");
    reveal_strlit("warn");
    reveal_strlit("warning");
    reveal_strlit("error");
    assert("trace"@[0] == 't' && "debug"@[0] == 'd' && "error"@[0] == 'e' && "warn"@[0] == 'w'
        && "warning"@[0] == 'w');
}

} // verus!
