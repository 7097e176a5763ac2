//! Configuration model: the license text, the per-language comment rules,
//! the built-in language set and the merge of user entries over built-ins.

use vstd::prelude::*;

verus! {

/// The configured license text, kept as raw bytes; its line structure is
/// significant for synthesis, surrounding whitespace is not for comparison.
#[derive(Debug, Clone, PartialEq, Eq)]
pub struct LicenseConfig {
    pub text: Vec<u8>,
}

/// How one grammar comment node maps to delimiter syntax.
#[derive(Debug, Clone, PartialEq, Eq)]
pub enum CommentKind {
    Single(Vec<u8>),
    Multi { start: Vec<u8>, end: Vec<u8>, between: Option<Vec<u8>> },
}

/// One comment rule of a language: the grammar node type it applies to,
/// its delimiter syntax, and whether it is the default for synthesis.
#[derive(Debug, Clone, PartialEq, Eq)]
pub struct CommentConfig {
    pub tree_sitter_name: Vec<u8>,
    pub comment_kind: CommentKind,
    pub preferred: bool,
}

/// One language: its file-name glob patterns and its ordered comment rules.
#[derive(Debug, Clone, PartialEq, Eq)]
pub struct LanguageConfig {
    pub file_endings: Vec<Vec<u8>>,
    pub comments: Vec<CommentConfig>,
}

/// The whole configuration: the license text and the ordered language set.
#[derive(Debug, Clone, PartialEq, Eq)]
pub struct Config {
    pub license: LicenseConfig,
    pub languages: Vec<(Vec<u8>, LanguageConfig)>,
}

/// The view of an optional byte string.
pub open spec fn opt_view(o: Option<Vec<u8>>) -> Option<Seq<u8>> {
    match o {
        Some(v) => Some(v@),
        None => None,
    }
}

/// `c` is a single-line rule with the given tag, prefix and flag.
pub open spec fn is_single_rule(c: CommentConfig, tag: Seq<u8>, prefix: Seq<u8>, pref: bool) -> bool {
    &&& c.tree_sitter_name@ == tag
    &&& c.preferred == pref
    &&& c.comment_kind matches CommentKind::Single(p) && p@ == prefix
}

/// `c` is a multi-line rule with the given tag, delimiters and flag.
pub open spec fn is_multi_rule(
    c: CommentConfig,
    tag: Seq<u8>,
    start: Seq<u8>,
    end: Seq<u8>,
    between: Option<Seq<u8>>,
    pref: bool,
) -> bool {
    &&& c.tree_sitter_name@ == tag
    &&& c.preferred == pref
    &&& c.comment_kind matches CommentKind::Multi { start: s, end: e, between: b }
        && s@ == start && e@ == end && opt_view(b) == between
}

pub open spec fn name_bash() -> Seq<u8> {
    seq![98u8, 97u8, 115u8, 104u8]
}

pub open spec fn name_rust() -> Seq<u8> {
    seq![114u8, 117u8, 115u8, 116u8]
}

pub open spec fn name_toml() -> Seq<u8> {
    seq![116u8, 111u8, 109u8, 108u8]
}

pub open spec fn glob_sh() -> Seq<u8> {
    seq![42u8, 46u8, 115u8, 104u8]
}

pub open spec fn glob_rs() -> Seq<u8> {
    seq![42u8, 46u8, 114u8, 115u8]
}

pub open spec fn glob_toml() -> Seq<u8> {
    seq![42u8, 46u8, 116u8, 111u8, 109u8, 108u8]
}

pub open spec fn tag_block_comment() -> Seq<u8> {
    seq![98u8, 108u8, 111u8, 99u8, 107u8, 95u8, 99u8, 111u8, 109u8, 109u8, 101u8, 110u8, 116u8]
}

pub open spec fn tag_line_comment() -> Seq<u8> {
    seq![108u8, 105u8, 110u8, 101u8, 95u8, 99u8, 111u8, 109u8, 109u8, 101u8, 110u8, 116u8]
}

pub open spec fn tag_comment() -> Seq<u8> {
    seq![99u8, 111u8, 109u8, 109u8, 101u8, 110u8, 116u8]
}

fn push_n(v: &mut Vec<u8>, b: u8)
    ensures
        final(v)@ == old(v)@.push(b),
{
    v.push(b);
}

fn bash_name() -> (r: Vec<u8>)
    ensures
        r@ == name_bash(),
{
    let mut v: Vec<u8> = Vec::new();
    push_n(&mut v, 98u8);
    push_n(&mut v, 97u8);
    push_n(&mut v, 115u8);
    push_n(&mut v, 104u8);
    proof {
        assert(v@ =~= name_bash());
    }
    v
}

fn rust_name() -> (r: Vec<u8>)
    ensures
        r@ == name_rust(),
{
    let mut v: Vec<u8> = Vec::new();
    push_n(&mut v, 114u8);
    push_n(&mut v, 117u8);
    push_n(&mut v, 115u8);
    push_n(&mut v, 116u8);
    proof {
        assert(v@ =~= name_rust());
    }
    v
}

fn toml_name() -> (r: Vec<u8>)
    ensures
        r@ == name_toml(),
{
    let mut v: Vec<u8> = Vec::new();
    push_n(&mut v, 116u8);
    push_n(&mut v, 111u8);
    push_n(&mut v, 109u8);
    push_n(&mut v, 108u8);
    proof {
        assert(v@ =~= name_toml());
    }
    v
}

fn sh_glob() -> (r: Vec<u8>)
    ensures
        r@ == glob_sh(),
{
    let mut v: Vec<u8> = Vec::new();
    push_n(&mut v, 42u8);
    push_n(&mut v, 46u8);
    push_n(&mut v, 115u8);
    push_n(&mut v, 104u8);
    proof {
        assert(v@ =~= glob_sh());
    }
    v
}

fn rs_glob() -> (r: Vec<u8>)
    ensures
        r@ == glob_rs(),
{
    let mut v: Vec<u8> = Vec::new();
    push_n(&mut v, 42u8);
    push_n(&mut v, 46u8);
    push_n(&mut v, 114u8);
    push_n(&mut v, 115u8);
    proof {
        assert(v@ =~= glob_rs());
    }
    v
}

fn toml_glob() -> (r: Vec<u8>)
    ensures
        r@ == glob_toml(),
{
    let mut v: Vec<u8> = Vec::new();
    push_n(&mut v, 42u8);
    push_n(&mut v, 46u8);
    push_n(&mut v, 116u8);
    push_n(&mut v, 111u8);
    push_n(&mut v, 109u8);
    push_n(&mut v, 108u8);
    proof {
        assert(v@ =~= glob_toml());
    }
    v
}

fn block_comment_tag() -> (r: Vec<u8>)
    ensures
        r@ == tag_block_comment(),
{
    let mut v: Vec<u8> = Vec::new();
    push_n(&mut v, 98u8);
    push_n(&mut v, 108u8);
    push_n(&mut v, 111u8);
    push_n(&mut v, 99u8);
    push_n(&mut v, 107u8);
    push_n(&mut v, 95u8);
    push_n(&mut v, 99u8);
    push_n(&mut v, 111u8);
    push_n(&mut v, 109u8);
    push_n(&mut v, 109u8);
    push_n(&mut v, 101u8);
    push_n(&mut v, 110u8);
    push_n(&mut v, 116u8);
    proof {
        assert(v@ =~= tag_block_comment());
    }
    v
}

fn line_comment_tag() -> (r: Vec<u8>)
    ensures
        r@ == tag_line_comment(),
{
    let mut v: Vec<u8> = Vec::new();
    push_n(&mut v, 108u8);
    push_n(&mut v, 105u8);
    push_n(&mut v, 110u8);
    push_n(&mut v, 101u8);
    push_n(&mut v, 95u8);
    push_n(&mut v, 99u8);
    push_n(&mut v, 111u8);
    push_n(&mut v, 109u8);
    push_n(&mut v, 109u8);
    push_n(&mut v, 101u8);
    push_n(&mut v, 110u8);
    push_n(&mut v, 116u8);
    proof {
        assert(v@ =~= tag_line_comment());
    }
    v
}

fn comment_tag() -> (r: Vec<u8>)
    ensures
        r@ == tag_comment(),
{
    let mut v: Vec<u8> = Vec::new();
    push_n(&mut v, 99u8);
    push_n(&mut v, 111u8);
    push_n(&mut v, 109u8);
    push_n(&mut v, 109u8);
    push_n(&mut v, 101u8);
    push_n(&mut v, 110u8);
    push_n(&mut v, 116u8);
    proof {
        assert(v@ =~= tag_comment());
    }
    v
}

/// The built-in language set: `bash` with no comment rules, `rust` with a
/// non-preferred block rule and a preferred line rule, and `toml` with a
/// preferred line rule.
pub fn default_languages() -> (r: Vec<(Vec<u8>, LanguageConfig)>)
    ensures
        r@.len() == 3,
        r@[0].0@ == name_bash(),
        r@[0].1.file_endings@.len() == 1,
        r@[0].1.file_endings@[0]@ == glob_sh(),
        r@[0].1.comments@.len() == 0,
        r@[1].0@ == name_rust(),
        r@[1].1.file_endings@.len() == 1,
        r@[1].1.file_endings@[0]@ == glob_rs(),
        r@[1].1.comments@.len() == 2,
        is_multi_rule(
            r@[1].1.comments@[0],
            tag_block_comment(),
            seq![47u8, 42u8],
            seq![42u8, 47u8],
            Some(seq![42u8]),
            false,
        ),
        is_single_rule(r@[1].1.comments@[1], tag_line_comment(), seq![47u8, 47u8], true),
        r@[2].0@ == name_toml(),
        r@[2].1.file_endings@.len() == 1,
        r@[2].1.file_endings@[0]@ == glob_toml(),
        r@[2].1.comments@.len() == 1,
        is_single_rule(r@[2].1.comments@[0], tag_comment(), seq![35u8], true),
{
    let mut block_start: Vec<u8> = Vec::new();
    push_n(&mut block_start, 47u8);
    push_n(&mut block_start, 42u8);
    let mut block_end: Vec<u8> = Vec::new();
    push_n(&mut block_end, 42u8);
    push_n(&mut block_end, 47u8);
    let mut block_between: Vec<u8> = Vec::new();
    push_n(&mut block_between, 42u8);
    let mut line_prefix: Vec<u8> = Vec::new();
    push_n(&mut line_prefix, 47u8);
    push_n(&mut line_prefix, 47u8);
    let mut hash_prefix: Vec<u8> = Vec::new();
    push_n(&mut hash_prefix, 35u8);
    proof {
        assert(block_start@ =~= seq![47u8, 42u8]);
        assert(block_end@ =~= seq![42u8, 47u8]);
        assert(block_between@ =~= seq![42u8]);
        assert(line_prefix@ =~= seq![47u8, 47u8]);
        assert(hash_prefix@ =~= seq![35u8]);
    }

    let mut bash_endings: Vec<Vec<u8>> = Vec::new();
    bash_endings.push(sh_glob());
    let bash_conf = LanguageConfig { file_endings: bash_endings, comments: Vec::new() };

    let mut rust_endings: Vec<Vec<u8>> = Vec::new();
    rust_endings.push(rs_glob());
    let mut rust_rules: Vec<CommentConfig> = Vec::new();
    rust_rules.push(
        CommentConfig {
            tree_sitter_name: block_comment_tag(),
            comment_kind: CommentKind::Multi {
                start: block_start,
                end: block_end,
                between: Some(block_between),
            },
            preferred: false,
        },
    );
    rust_rules.push(
        CommentConfig {
            tree_sitter_name: line_comment_tag(),
            comment_kind: CommentKind::Single(line_prefix),
            preferred: true,
        },
    );
    let rust_conf = LanguageConfig { file_endings: rust_endings, comments: rust_rules };

    let mut toml_endings: Vec<Vec<u8>> = Vec::new();
    toml_endings.push(toml_glob());
    let mut toml_rules: Vec<CommentConfig> = Vec::new();
    toml_rules.push(
        CommentConfig {
            tree_sitter_name: comment_tag(),
            comment_kind: CommentKind::Single(hash_prefix),
            preferred: true,
        },
    );
    let toml_conf = LanguageConfig { file_endings: toml_endings, comments: toml_rules };

    let mut r: Vec<(Vec<u8>, LanguageConfig)> = Vec::new();
    r.push((bash_name(), bash_conf));
    r.push((rust_name(), rust_conf));
    r.push((toml_name(), toml_conf));
    r
}

/// A language of this name stands in the list.
pub open spec fn has_language(ls: Seq<(Vec<u8>, LanguageConfig)>, name: Seq<u8>) -> bool {
    exists|i: int| 0 <= i < ls.len() && ls[i].0@ == name
}

/// User entries followed by the defaults whose names no user entry took,
/// in order: a user entry always wins over a built-in of the same name.
pub open spec fn merged(
    user: Seq<(Vec<u8>, LanguageConfig)>,
    defaults: Seq<(Vec<u8>, LanguageConfig)>,
) -> Seq<(Vec<u8>, LanguageConfig)>
    decreases defaults.len(),
{
    if defaults.len() == 0 {
        user
    } else {
        let m = merged(user, defaults.drop_last());
        if has_language(user, defaults.last().0@) {
            m
        } else {
            m.push(defaults.last())
        }
    }
}

fn contains_language(ls: &Vec<(Vec<u8>, LanguageConfig)>, upto: usize, name: &Vec<u8>) -> (r: bool)
    requires
        upto <= ls@.len(),
    ensures
        r == has_language(ls@.take(upto as int), name@),
{
    let mut j: usize = 0;
    while j < upto
        invariant
            j <= upto <= ls@.len(),
            forall|i: int| 0 <= i < j ==> ls@[i].0@ != name@,
        decreases upto - j,
    {
        if crate::text::bytes_eq(&ls[j].0, name) {
            proof {
                assert(ls@.take(upto as int)[j as int].0@ == name@);
            }
            return true;
        }
        j += 1;
    }
    proof {
        assert(forall|i: int| 0 <= i < upto ==> (#[trigger] ls@.take(upto as int)[i]) == ls@[i]);
    }
    false
}

/// Merges built-in defaults under the user's languages: every user entry
/// is kept as it stands, and a default fills in only a name the user did
/// not configure.
pub fn merge_languages(
    user: Vec<(Vec<u8>, LanguageConfig)>,
    defaults: Vec<(Vec<u8>, LanguageConfig)>,
) -> (r: Vec<(Vec<u8>, LanguageConfig)>)
    ensures
        r@ == merged(user@, defaults@),
{
    let ghost userv = user@;
    let ghost defv = defaults@;
    let un: usize = user.len();
    let mut defaults = defaults;
    let mut r = user;
    let ghost mut processed: int = 0;
    while defaults.len() > 0
        invariant
            0 <= processed <= defv.len(),
            defaults@ == defv.skip(processed),
            un == userv.len(),
            un <= r@.len(),
            r@.take(un as int) == userv,
            r@ == merged(userv, defv.take(processed)),
        decreases defaults@.len(),
    {
        let d = defaults.remove(0);
        proof {
            assert(d == defv[processed]);
            assert(defv.skip(processed).skip(1) =~= defv.skip(processed + 1));
        }
        let dup = contains_language(&r, un, &d.0);
        proof {
            assert(r@.take(un as int) == userv);
            assert(defv.take(processed + 1).drop_last() =~= defv.take(processed));
            assert(defv.take(processed + 1).last() == defv[processed]);
        }
        if !dup {
            r.push(d);
            proof {
                assert(r@.take(un as int) =~= userv);
            }
        }
        proof {
            processed = processed + 1;
        }
    }
    proof {
        assert(defv.take(processed) =~= defv);
    }
    r
}

/// Some rule of the list is marked preferred.
pub open spec fn has_preferred(rules: Seq<CommentConfig>) -> bool {
    exists|k: int| 0 <= k < rules.len() && rules[k].preferred
}

/// `i` is the rule synthesis must use: the first preferred rule if any
/// rule is preferred, else the first rule.
pub open spec fn is_chosen_rule(rules: Seq<CommentConfig>, i: int) -> bool {
    &&& 0 <= i < rules.len()
    &&& if has_preferred(rules) {
        rules[i].preferred && forall|k: int| 0 <= k < i ==> !rules[k].preferred
    } else {
        i == 0
    }
}

/// Selects the rule synthesis uses: the first preferred rule, else the
/// first configured rule; none exactly when the language has no rules.
pub fn select_rule(rules: &Vec<CommentConfig>) -> (r: Option<usize>)
    ensures
        match r {
            Some(i) => is_chosen_rule(rules@, i as int),
            None => rules@.len() == 0,
        },
{
    let mut j: usize = 0;
    while j < rules.len()
        invariant
            j <= rules@.len(),
            forall|k: int| 0 <= k < j ==> !rules@[k].preferred,
        decreases rules@.len() - j,
    {
        if rules[j].preferred {
            return Some(j);
        }
        j += 1;
    }
    if rules.len() > 0 {
        Some(0)
    } else {
        None
    }
}

} // verus!
