//! Command lines of the offline tools: flags, each followed by its value. A
//! flag given twice takes its last value.
use vstd::prelude::*;

use crate::text::parse_unsigned;

verus! {

/// Why a command line is refused.
pub enum ArgFault {
    /// No flag of the tool.
    UnknownFlag(String),
    /// A flag at the end, with no value after it.
    MissingValue(String),
    /// A flag whose value must be a number and is none.
    BadNumber(String),
}

/// Why a command line is refused, with the flag as a text.
pub enum Fault {
    UnknownFlag(Seq<char>),
    MissingValue(Seq<char>),
    BadNumber(Seq<char>),
}

impl View for ArgFault {
    type V = Fault;

    open spec fn view(&self) -> Fault {
        match *self {
            ArgFault::UnknownFlag(flag) => Fault::UnknownFlag(flag@),
            ArgFault::MissingValue(flag) => Fault::MissingValue(flag@),
            ArgFault::BadNumber(flag) => Fault::BadNumber(flag@),
        }
    }
}

/// A fault, if there is one.
pub open spec fn fault_view(fault: Option<ArgFault>) -> Option<Fault> {
    match fault {
        Some(f) => Some(f@),
        None => None,
    }
}

/// The words of a command line.
pub open spec fn words(raw: Seq<String>) -> Seq<Seq<char>> {
    raw.map_values(|w: String| w@)
}

fn is_word(word: &String, literal: &str) -> (same: bool)
    ensures
        same == (word@ == literal@),
{
    *word == literal.to_owned()
}

/// The settings of the index builder.
pub struct BuildArgs {
    pub in_path: String,
    pub out_path: String,
    pub num_centroids: usize,
    /// Every sample rate given, as text; the last one counts.
    pub sample_rates: Vec<String>,
    pub iters: usize,
    pub default_probes: usize,
    pub seed: u64,
}

/// The settings of the index builder.
#[verifier::ext_equal]
pub struct BuildSettings {
    pub in_path: Seq<char>,
    pub out_path: Seq<char>,
    pub num_centroids: nat,
    pub sample_rates: Seq<Seq<char>>,
    pub iters: nat,
    pub default_probes: nat,
    pub seed: nat,
}

impl View for BuildArgs {
    type V = BuildSettings;

    open spec fn view(&self) -> BuildSettings {
        BuildSettings {
            in_path: self.in_path@,
            out_path: self.out_path@,
            num_centroids: self.num_centroids as nat,
            sample_rates: words(self.sample_rates@),
            iters: self.iters as nat,
            default_probes: self.default_probes as nat,
            seed: self.seed as nat,
        }
    }
}

/// The settings where no flag is given.
pub open spec fn build_defaults() -> BuildSettings {
    BuildSettings {
        in_path: "references.json.gz"@,
        out_path: "index.ivf.bin"@,
        num_centroids: 1000,
        sample_rates: Seq::empty(),
        iters: 20,
        default_probes: 20,
        seed: 42,
    }
}

/// A flag of the index builder.
pub open spec fn is_build_flag(flag: Seq<char>) -> bool {
    ||| flag == "-in"@
    ||| flag == "-out"@
    ||| flag == "-centroids"@
    ||| flag == "-sample"@
    ||| flag == "-iters"@
    ||| flag == "-probes"@
    ||| flag == "-seed"@
}

/// The settings with one flag of the builder set; nothing where its value must
/// be a number and is none.
pub open spec fn build_with(
    s: BuildSettings,
    flag: Seq<char>,
    value: Seq<char>,
) -> Option<BuildSettings> {
    if flag == "-in"@ {
        Some(BuildSettings { in_path: value, ..s })
    } else if flag == "-out"@ {
        Some(BuildSettings { out_path: value, ..s })
    } else if flag == "-sample"@ {
        Some(BuildSettings { sample_rates: s.sample_rates.push(value), ..s })
    } else if flag == "-seed"@ {
        match crate::text::parsed(value, u64::MAX as nat) {
            Some(n) => Some(BuildSettings { seed: n, ..s }),
            None => None,
        }
    } else {
        match crate::text::parsed(value, usize::MAX as nat) {
            Some(n) => if flag == "-centroids"@ {
                Some(BuildSettings { num_centroids: n, ..s })
            } else if flag == "-iters"@ {
                Some(BuildSettings { iters: n, ..s })
            } else {
                Some(BuildSettings { default_probes: n, ..s })
            },
            None => None,
        }
    }
}

/// The settings after the words, read from the left up to the first fault.
pub open spec fn build_read(s: BuildSettings, words: Seq<Seq<char>>) -> (
    BuildSettings,
    Option<Fault>,
)
    decreases words.len(),
{
    if words.len() == 0 {
        (s, None)
    } else if !is_build_flag(words[0]) {
        (s, Some(Fault::UnknownFlag(words[0])))
    } else if words.len() == 1 {
        (s, Some(Fault::MissingValue(words[0])))
    } else {
        match build_with(s, words[0], words[1]) {
            Some(next) => build_read(next, words.skip(2)),
            None => (s, Some(Fault::BadNumber(words[0]))),
        }
    }
}

fn parse_size(text: &String) -> (n: Option<usize>)
    ensures
        match n {
            Some(v) => crate::text::parsed(text@, usize::MAX as nat) == Some(v as nat),
            None => crate::text::parsed(text@, usize::MAX as nat) is None,
        },
{
    match parse_unsigned(text.as_str(), usize::MAX as u64) {
        Some(v) => Some(v as usize),
        None => None,
    }
}

impl BuildArgs {
    fn set(&mut self, flag: &String, value: &String) -> (ok: bool)
        requires
            is_build_flag(flag@),
        ensures
            match build_with(old(self)@, flag@, value@) {
                Some(next) => ok && final(self)@ == next,
                None => !ok && final(self)@ == old(self)@,
            },
    {
        let ghost before = self@;
        if is_word(flag, "-in") {
            self.in_path = value.clone();
        } else if is_word(flag, "-out") {
            self.out_path = value.clone();
        } else if is_word(flag, "-sample") {
            self.sample_rates.push(value.clone());
            assert(words(self.sample_rates@) =~= before.sample_rates.push(value@));
        } else if is_word(flag, "-seed") {
            match parse_unsigned(value.as_str(), u64::MAX) {
                Some(n) => {
                    self.seed = n;
                },
                None => {
                    return false;
                },
            }
        } else {
            match parse_size(value) {
                Some(n) => {
                    if is_word(flag, "-centroids") {
                        self.num_centroids = n;
                    } else if is_word(flag, "-iters") {
                        self.iters = n;
                    } else {
                        self.default_probes = n;
                    }
                },
                None => {
                    return false;
                },
            }
        }
        true
    }
}

fn known_build_flag(flag: &String) -> (known: bool)
    ensures
        known == is_build_flag(flag@),
{
    is_word(flag, "-in") || is_word(flag, "-out") || is_word(flag, "-centroids") || is_word(
        flag,
        "-sample",
    ) || is_word(flag, "-iters") || is_word(flag, "-probes") || is_word(flag, "-seed")
}

/// Reads the command line of the index builder, without the program's name, up
/// to the first fault.
pub fn parse_build_args(raw: &Vec<String>) -> (res: (BuildArgs, Option<ArgFault>))
    ensures
        (res.0@, fault_view(res.1)) == build_read(build_defaults(), words(raw@)),
        ({
            let read = build_read(build_defaults(), raw@.map_values(|w: String| w@));
            &&& res.0.in_path@ == read.0.in_path
            &&& res.0.out_path@ == read.0.out_path
            &&& res.0.num_centroids == read.0.num_centroids
            &&& res.0.sample_rates@.map_values(|w: String| w@) == read.0.sample_rates
            &&& res.0.iters == read.0.iters
            &&& res.0.default_probes == read.0.default_probes
            &&& res.0.seed == read.0.seed
            &&& match (res.1, read.1) {
                (None, None) => true,
                (Some(ArgFault::UnknownFlag(flag)), Some(Fault::UnknownFlag(word))) => flag@ == word,
                (Some(ArgFault::MissingValue(flag)), Some(Fault::MissingValue(word))) => flag@
                    == word,
                (Some(ArgFault::BadNumber(flag)), Some(Fault::BadNumber(word))) => flag@ == word,
                _ => false,
            }
        }),
{
    let mut args: BuildArgs = BuildArgs {
        in_path: "references.json.gz".to_owned(),
        out_path: "index.ivf.bin".to_owned(),
        num_centroids: 1000,
        sample_rates: Vec::new(),
        iters: 20,
        default_probes: 20,
        seed: 42,
    };
    let ghost all = words(raw@);
    assert(args@ =~= build_defaults());
    assert(all.skip(0) =~= all);
    let mut i: usize = 0;
    while i < raw.len()
        invariant
            i <= raw.len(),
            all == words(raw@),
            build_read(args@, all.skip(i as int)) == build_read(build_defaults(), all),
        decreases raw.len() - i,
    {
        let ghost rest = all.skip(i as int);
        assert(rest[0] == raw[i as int]@);
        if !known_build_flag(&raw[i]) {
            return (args, Some(ArgFault::UnknownFlag(raw[i].clone())));
        }
        if i + 1 == raw.len() {
            return (args, Some(ArgFault::MissingValue(raw[i].clone())));
        }
        assert(rest[1] == raw[i + 1]@);
        if !args.set(&raw[i], &raw[i + 1]) {
            return (args, Some(ArgFault::BadNumber(raw[i].clone())));
        }
        assert(rest.skip(2) =~= all.skip(i + 2));
        i = i + 2;
    }
    (args, None)
}

/// The paths of the mismatch classifier.
pub struct ClassifyArgs {
    pub mismatches_path: String,
    pub index_path: String,
    pub refs_path: String,
    pub norm_path: String,
    pub mcc_path: String,
    pub output_path: String,
}

/// The paths of the mismatch classifier.
pub struct ClassifyPaths {
    pub mismatches_path: Seq<char>,
    pub index_path: Seq<char>,
    pub refs_path: Seq<char>,
    pub norm_path: Seq<char>,
    pub mcc_path: Seq<char>,
    pub output_path: Seq<char>,
}

impl View for ClassifyArgs {
    type V = ClassifyPaths;

    open spec fn view(&self) -> ClassifyPaths {
        ClassifyPaths {
            mismatches_path: self.mismatches_path@,
            index_path: self.index_path@,
            refs_path: self.refs_path@,
            norm_path: self.norm_path@,
            mcc_path: self.mcc_path@,
            output_path: self.output_path@,
        }
    }
}

/// The paths where no flag is given.
pub open spec fn classify_defaults() -> ClassifyPaths {
    ClassifyPaths {
        mismatches_path: "../test/diag-mismatches.jsonl"@,
        index_path: "../data/index.ivf.bin"@,
        refs_path: "../data/references.json.gz"@,
        norm_path: "../data/normalization.json"@,
        mcc_path: "../data/mcc_risk.json"@,
        output_path: "../test/diag-classified.jsonl"@,
    }
}

/// The paths with one flag set; nothing for a word that is no flag.
pub open spec fn classify_with(
    p: ClassifyPaths,
    flag: Seq<char>,
    value: Seq<char>,
) -> Option<ClassifyPaths> {
    if flag == "--mismatches"@ {
        Some(ClassifyPaths { mismatches_path: value, ..p })
    } else if flag == "--index"@ {
        Some(ClassifyPaths { index_path: value, ..p })
    } else if flag == "--refs"@ {
        Some(ClassifyPaths { refs_path: value, ..p })
    } else if flag == "--norm"@ {
        Some(ClassifyPaths { norm_path: value, ..p })
    } else if flag == "--mcc"@ {
        Some(ClassifyPaths { mcc_path: value, ..p })
    } else if flag == "--output"@ {
        Some(ClassifyPaths { output_path: value, ..p })
    } else {
        None
    }
}

/// The paths after the words, read from the left up to the first fault.
pub open spec fn classify_read(p: ClassifyPaths, words: Seq<Seq<char>>) -> (
    ClassifyPaths,
    Option<Fault>,
)
    decreases words.len(),
{
    if words.len() == 0 {
        (p, None)
    } else if classify_with(p, words[0], Seq::empty()) is None {
        (p, Some(Fault::UnknownFlag(words[0])))
    } else if words.len() == 1 {
        (p, Some(Fault::MissingValue(words[0])))
    } else {
        classify_read(classify_with(p, words[0], words[1])->0, words.skip(2))
    }
}

fn known_classify_flag(flag: &String) -> (known: bool)
    ensures
        forall|p: ClassifyPaths, v: Seq<char>|
            known == (#[trigger] classify_with(p, flag@, v) is Some),
{
    is_word(flag, "--mismatches") || is_word(flag, "--index") || is_word(flag, "--refs") || is_word(
        flag,
        "--norm",
    ) || is_word(flag, "--mcc") || is_word(flag, "--output")
}

impl ClassifyArgs {
    fn set(&mut self, flag: &String, value: &String)
        requires
            classify_with(old(self)@, flag@, value@) is Some,
        ensures
            classify_with(old(self)@, flag@, value@) == Some(final(self)@),
    {
        if is_word(flag, "--mismatches") {
            self.mismatches_path = value.clone();
        } else if is_word(flag, "--index") {
            self.index_path = value.clone();
        } else if is_word(flag, "--refs") {
            self.refs_path = value.clone();
        } else if is_word(flag, "--norm") {
            self.norm_path = value.clone();
        } else if is_word(flag, "--mcc") {
            self.mcc_path = value.clone();
        } else {
            self.output_path = value.clone();
        }
    }
}

/// Reads the command line of the mismatch classifier, without the program's
/// name, up to the first fault.
pub fn parse_classify_args(raw: &Vec<String>) -> (res: (ClassifyArgs, Option<ArgFault>))
    ensures
        (res.0@, fault_view(res.1)) == classify_read(classify_defaults(), words(raw@)),
        ({
            let read = classify_read(classify_defaults(), raw@.map_values(|w: String| w@));
            &&& res.0.mismatches_path@ == read.0.mismatches_path
            &&& res.0.index_path@ == read.0.index_path
            &&& res.0.refs_path@ == read.0.refs_path
            &&& res.0.norm_path@ == read.0.norm_path
            &&& res.0.mcc_path@ == read.0.mcc_path
            &&& res.0.output_path@ == read.0.output_path
            &&& match (res.1, read.1) {
                (None, None) => true,
                (Some(ArgFault::UnknownFlag(flag)), Some(Fault::UnknownFlag(word))) => flag@ == word,
                (Some(ArgFault::MissingValue(flag)), Some(Fault::MissingValue(word))) => flag@
                    == word,
                (Some(ArgFault::BadNumber(flag)), Some(Fault::BadNumber(word))) => flag@ == word,
                _ => false,
            }
        }),
{
    let mut args: ClassifyArgs = ClassifyArgs {
        mismatches_path: "../test/diag-mismatches.jsonl".to_owned(),
        index_path: "../data/index.ivf.bin".to_owned(),
        refs_path: "../data/references.json.gz".to_owned(),
        norm_path: "../data/normalization.json".to_owned(),
        mcc_path: "../data/mcc_risk.json".to_owned(),
        output_path: "../test/diag-classified.jsonl".to_owned(),
    };
    let ghost all = words(raw@);
    assert(all.skip(0) =~= all);
    let mut i: usize = 0;
    while i < raw.len()
        invariant
            i <= raw.len(),
            all == words(raw@),
            classify_read(args@, all.skip(i as int)) == classify_read(classify_defaults(), all),
        decreases raw.len() - i,
    {
        let ghost rest = all.skip(i as int);
        assert(rest[0] == raw[i as int]@);
        if !known_classify_flag(&raw[i]) {
            assert(classify_with(args@, rest[0], Seq::empty()) is None);
            return (args, Some(ArgFault::UnknownFlag(raw[i].clone())));
        }
        assert(classify_with(args@, rest[0], Seq::empty()) is Some);
        if i + 1 == raw.len() {
            return (args, Some(ArgFault::MissingValue(raw[i].clone())));
        }
        assert(rest[1] == raw[i + 1]@);
        assert(classify_with(args@, rest[0], rest[1]) is Some);
        args.set(&raw[i], &raw[i + 1]);
        assert(rest.skip(2) =~= all.skip(i + 2));
        i = i + 2;
    }
    (args, None)
}

/// A flag at the end of an accepted command line of the builder sets its value,
/// whatever was given before.
pub proof fn lemma_last_build_flag_counts(
    s: BuildSettings,
    words: Seq<Seq<char>>,
    flag: Seq<char>,
    value: Seq<char>,
)
    requires
        build_read(s, words).1 is None,
        is_build_flag(flag),
        build_with(s, flag, value) is Some,
    ensures
        build_with(build_read(s, words).0, flag, value) is Some,
        build_read(s, words + seq![flag, value]) == (
            build_with(build_read(s, words).0, flag, value)->0,
            None::<Fault>,
        ),
    decreases words.len(),
{
    let all = words + seq![flag, value];
    if words.len() == 0 {
        assert(all.skip(2) =~= Seq::empty());
        reveal_with_fuel(build_read, 2);
    } else {
        assert(all[0] == words[0] && all[1] == words[1]);
        assert(all.skip(2) =~= words.skip(2) + seq![flag, value]);
        lemma_last_build_flag_counts(
            build_with(s, words[0], words[1])->0,
            words.skip(2),
            flag,
            value,
        );
    }
}

/// A flag at the end of an accepted command line of the classifier sets its
/// path, whatever was given before.
pub proof fn lemma_last_classify_flag_counts(
    p: ClassifyPaths,
    words: Seq<Seq<char>>,
    flag: Seq<char>,
    value: Seq<char>,
)
    requires
        classify_read(p, words).1 is None,
        classify_with(p, flag, value) is Some,
    ensures
        classify_read(p, words + seq![flag, value]) == (
            classify_with(classify_read(p, words).0, flag, value)->0,
            None::<Fault>,
        ),
    decreases words.len(),
{
    let all = words + seq![flag, value];
    if words.len() == 0 {
        assert(all.skip(2) =~= Seq::empty());
        reveal_with_fuel(classify_read, 2);
    } else {
        assert(all[0] == words[0] && all[1] == words[1]);
        assert(all.skip(2) =~= words.skip(2) + seq![flag, value]);
        lemma_last_classify_flag_counts(
            classify_with(p, words[0], words[1])->0,
            words.skip(2),
            flag,
            value,
        );
    }
}

/// Without flags the builder reads and writes the documented files, with 1000
/// clusters, 20 rounds, 20 probes and the seed 42.
pub proof fn lemma_build_defaults()
    ensures
        build_read(build_defaults(), Seq::empty()) == (build_defaults(), None::<Fault>),
        build_defaults().in_path == "references.json.gz"@,
        build_defaults().out_path == "index.ivf.bin"@,
        build_defaults().num_centroids == 1000,
        build_defaults().sample_rates == Seq::<Seq<char>>::empty(),
        build_defaults().iters == 20,
        build_defaults().default_probes == 20,
        build_defaults().seed == 42,
{
}

/// Each flag of the builder sets its own setting and no other. A path or a
/// sample rate is taken as it is; a number must be one.
pub proof fn lemma_build_flags(s: BuildSettings, flag: Seq<char>, value: Seq<char>)
    ensures
        is_build_flag(flag) <==> {
            ||| flag == "-in"@
            ||| flag == "-out"@
            ||| flag == "-centroids"@
            ||| flag == "-sample"@
            ||| flag == "-iters"@
            ||| flag == "-probes"@
            ||| flag == "-seed"@
        },
        build_with(s, "-in"@, value) == Some(BuildSettings { in_path: value, ..s }),
        build_with(s, "-out"@, value) == Some(BuildSettings { out_path: value, ..s }),
        build_with(s, "-sample"@, value) == Some(
            BuildSettings { sample_rates: s.sample_rates.push(value), ..s },
        ),
        build_with(s, "-centroids"@, value) == match crate::text::parsed(value, usize::MAX as nat) {
            Some(n) => Some(BuildSettings { num_centroids: n, ..s }),
            None => None,
        },
        build_with(s, "-iters"@, value) == match crate::text::parsed(value, usize::MAX as nat) {
            Some(n) => Some(BuildSettings { iters: n, ..s }),
            None => None,
        },
        build_with(s, "-probes"@, value) == match crate::text::parsed(value, usize::MAX as nat) {
            Some(n) => Some(BuildSettings { default_probes: n, ..s }),
            None => None,
        },
        build_with(s, "-seed"@, value) == match crate::text::parsed(value, u64::MAX as nat) {
            Some(n) => Some(BuildSettings { seed: n, ..s }),
            None => None,
        },
{
    reveal_strlit("-in");
    reveal_strlit("-out");
    reveal_strlit("-centroids");
    reveal_strlit("-sample");
    reveal_strlit("-iters");
    reveal_strlit("-probes");
    reveal_strlit("-seed");
    assert("-in"@.len() != "-out"@.len());
    assert("-in"@.len() != "-centroids"@.len());
    assert("-in"@.len() != "-sample"@.len());
    assert("-in"@.len() != "-iters"@.len());
    assert("-in"@.len() != "-probes"@.len());
    assert("-in"@.len() != "-seed"@.len());
    assert("-out"@.len() != "-centroids"@.len());
    assert("-out"@.len() != "-sample"@.len());
    assert("-out"@.len() != "-iters"@.len());
    assert("-out"@.len() != "-probes"@.len());
    assert("-out"@.len() != "-seed"@.len());
    assert("-centroids"@.len() != "-sample"@.len());
    assert("-centroids"@.len() != "-iters"@.len());
    assert("-centroids"@.len() != "-probes"@.len());
    assert("-centroids"@.len() != "-seed"@.len());
    assert("-sample"@.len() != "-iters"@.len());
    assert("-sample"@[1] != "-probes"@[1]);
    assert("-sample"@.len() != "-seed"@.len());
    assert("-iters"@.len() != "-probes"@.len());
    assert("-iters"@.len() != "-seed"@.len());
    assert("-probes"@.len() != "-seed"@.len());
}

/// The builder reads its words from the left, two at a time. It stops at a word
/// that is no flag, at a flag with no value after it and at a value that should
/// be a number and is none, and keeps what was set before.
pub proof fn lemma_build_words(
    s: BuildSettings,
    flag: Seq<char>,
    value: Seq<char>,
    rest: Seq<Seq<char>>,
)
    ensures
        !is_build_flag(flag) ==> build_read(s, seq![flag] + rest) == (
            s,
            Some(Fault::UnknownFlag(flag)),
        ),
        is_build_flag(flag) ==> build_read(s, seq![flag]) == (s, Some(Fault::MissingValue(flag))),
        is_build_flag(flag) && build_with(s, flag, value) is None ==> build_read(
            s,
            seq![flag, value] + rest,
        ) == (s, Some(Fault::BadNumber(flag))),
        is_build_flag(flag) && build_with(s, flag, value) is Some ==> build_read(
            s,
            seq![flag, value] + rest,
        ) == build_read(build_with(s, flag, value)->0, rest),
{
    assert((seq![flag, value] + rest).skip(2) =~= rest);
}

/// Without flags the classifier works on the documented files.
pub proof fn lemma_classify_defaults()
    ensures
        classify_read(classify_defaults(), Seq::empty()) == (classify_defaults(), None::<Fault>),
        classify_defaults().mismatches_path == "../test/diag-mismatches.jsonl"@,
        classify_defaults().index_path == "../data/index.ivf.bin"@,
        classify_defaults().refs_path == "../data/references.json.gz"@,
        classify_defaults().norm_path == "../data/normalization.json"@,
        classify_defaults().mcc_path == "../data/mcc_risk.json"@,
        classify_defaults().output_path == "../test/diag-classified.jsonl"@,
{
}

/// Each flag of the classifier sets its own path and no other.
pub proof fn lemma_classify_flags(p: ClassifyPaths, flag: Seq<char>, value: Seq<char>)
    ensures
        classify_with(p, flag, value) is Some <==> {
            ||| flag == "--mismatches"@
            ||| flag == "--index"@
            ||| flag == "--refs"@
            ||| flag == "--norm"@
            ||| flag == "--mcc"@
            ||| flag == "--output"@
        },
        classify_with(p, "--mismatches"@, value) == Some(ClassifyPaths { mismatches_path: value, ..p }),
        classify_with(p, "--index"@, value) == Some(ClassifyPaths { index_path: value, ..p }),
        classify_with(p, "--refs"@, value) == Some(ClassifyPaths { refs_path: value, ..p }),
        classify_with(p, "--norm"@, value) == Some(ClassifyPaths { norm_path: value, ..p }),
        classify_with(p, "--mcc"@, value) == Some(ClassifyPaths { mcc_path: value, ..p }),
        classify_with(p, "--output"@, value) == Some(ClassifyPaths { output_path: value, ..p }),
{
    reveal_strlit("--mismatches");
    reveal_strlit("--index");
    reveal_strlit("--refs");
    reveal_strlit("--norm");
    reveal_strlit("--mcc");
    reveal_strlit("--output");
    assert("--mismatches"@.len() != "--index"@.len());
    assert("--mismatches"@.len() != "--refs"@.len());
    assert("--mismatches"@.len() != "--norm"@.len());
    assert("--mismatches"@.len() != "--mcc"@.len());
    assert("--mismatches"@.len() != "--output"@.len());
    assert("--index"@.len() != "--refs"@.len());
    assert("--index"@.len() != "--norm"@.len());
    assert("--index"@.len() != "--mcc"@.len());
    assert("--index"@.len() != "--output"@.len());
    assert("--refs"@[2] != "--norm"@[2]);
    assert("--refs"@.len() != "--mcc"@.len());
    assert("--refs"@.len() != "--output"@.len());
    assert("--norm"@.len() != "--mcc"@.len());
    assert("--norm"@.len() != "--output"@.len());
    assert("--mcc"@.len() != "--output"@.len());
}

/// The classifier reads its words from the left, two at a time. It stops at a
/// word that is no flag and at a flag with no value after it, and keeps what was
/// set before.
pub proof fn lemma_classify_words(
    p: ClassifyPaths,
    flag: Seq<char>,
    value: Seq<char>,
    rest: Seq<Seq<char>>,
)
    ensures
        classify_with(p, flag, value) is None ==> classify_read(p, seq![flag] + rest) == (
            p,
            Some(Fault::UnknownFlag(flag)),
        ),
        classify_with(p, flag, value) is Some ==> classify_read(p, seq![flag]) == (
            p,
            Some(Fault::MissingValue(flag)),
        ),
        classify_with(p, flag, value) is Some ==> classify_read(p, seq![flag, value] + rest)
            == classify_read(classify_with(p, flag, value)->0, rest),
{
    assert((seq![flag, value] + rest).skip(2) =~= rest);
}

} // verus!
