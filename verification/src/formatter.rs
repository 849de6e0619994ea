//! The message-format resolver: one left-to-right scan over the raw
//! text, rewriting entity escapes (`&amp;` `&lt;` `&gt;`) and bracket
//! tokens (`<sign? reference (| title)?>`) and copying everything else
//! through unchanged.
//!
//! At each position an entity escape is tried first, then a bracket
//! token; inside a bracket the first `>` closes the token and the first
//! `|` before it splits reference from title, both non-greedy, and a
//! token never spans a line break. The rewrite per bracket token: a
//! title wins outright (prefixed by the sign unless the sign is `!`);
//! `@`/`#` look the reference up in the directory and fall back to the
//! literal sign-plus-reference text when the lookup fails or the entity
//! carries no string `name` field; `!` renders as `@` plus reference;
//! no sign passes the reference through.
use vstd::prelude::*;

use crate::directory::Directory;
use crate::value::{get_field_model, Value, ValueModel};

verus! {

broadcast use vstd::std_specs::vec::group_vec_axioms, vstd::seq::group_seq_axioms;

/// The three characters that may stand as a reference sign.
pub open spec fn is_sign(c: char) -> bool {
    c == '#' || c == '@' || c == '!'
}

/// The first position at or after `j` holding `>`, provided no line
/// break stands before it; `None` otherwise. A bracket token cannot
/// span a line break.
pub open spec fn find_close(s: Seq<char>, j: int) -> Option<int>
    decreases s.len() - j,
{
    if j < 0 || j >= s.len() {
        None
    } else if s[j] == '>' {
        Some(j)
    } else if s[j] == '\n' {
        None
    } else {
        find_close(s, j + 1)
    }
}

/// A found closing position lies in `[j, s.len())`, holds `>`, and
/// nothing before it in the scanned range is `>` or a line break.
pub proof fn lemma_find_close(s: Seq<char>, j: int, c: int)
    requires
        find_close(s, j) == Some(c),
    ensures
        j <= c < s.len(),
        s[c] == '>',
        forall|k: int| j <= k < c ==> s[k] != '>' && s[k] != '\n',
    decreases s.len() - j,
{
    if !(j < 0 || j >= s.len()) && s[j] != '>' && s[j] != '\n' {
        lemma_find_close(s, j + 1, c);
    }
}

/// The first position of `|` in `[j, c)`, or `None`.
pub open spec fn find_pipe(s: Seq<char>, j: int, c: int) -> Option<int>
    decreases c - j,
{
    if j < 0 || j >= c || j >= s.len() {
        None
    } else if s[j] == '|' {
        Some(j)
    } else {
        find_pipe(s, j + 1, c)
    }
}

/// A parsed bracket token: the position of its closing `>`, its sign,
/// its reference text, and its title text if a title is present.
pub ghost struct BracketMatch {
    pub end: int,
    pub sign: Option<char>,
    pub reference: Seq<char>,
    pub title: Option<Seq<char>>,
}

/// Parse a bracket token opening at position `i` (which holds `<`).
/// The optional sign is taken first; the token closes at the first `>`
/// reachable without a line break. The first `|` before the close
/// splits reference from title; a title must be non-empty, so a `|`
/// standing right before the close either extends the title to the
/// next `>` or, failing that, falls back into the reference.
pub open spec fn bracket_match(s: Seq<char>, i: int) -> Option<BracketMatch> {
    let has_sign = i + 1 < s.len() && is_sign(s[i + 1]);
    let j = if has_sign {
        i + 2
    } else {
        i + 1
    };
    let sign = if has_sign {
        Some(s[i + 1])
    } else {
        None
    };
    match find_close(s, j) {
        None => None,
        Some(c) => match find_pipe(s, j, c) {
            None => Some(
                BracketMatch { end: c, sign, reference: s.subrange(j, c), title: None },
            ),
            Some(p) => {
                if c > p + 1 {
                    Some(
                        BracketMatch {
                            end: c,
                            sign,
                            reference: s.subrange(j, p),
                            title: Some(s.subrange(p + 1, c)),
                        },
                    )
                } else {
                    match find_close(s, c + 1) {
                        Some(q) => Some(
                            BracketMatch {
                                end: q,
                                sign,
                                reference: s.subrange(j, p),
                                title: Some(s.subrange(p + 1, q)),
                            },
                        ),
                        None => Some(
                            BracketMatch { end: c, sign, reference: s.subrange(j, c), title: None },
                        ),
                    }
                }
            },
        },
    }
}

/// A parsed bracket token closes strictly after its opening position
/// and strictly inside the text.
pub proof fn lemma_bracket_match(s: Seq<char>, i: int, m: BracketMatch)
    requires
        bracket_match(s, i) == Some(m),
    ensures
        i < m.end < s.len(),
{
    let has_sign = i + 1 < s.len() && is_sign(s[i + 1]);
    let j = if has_sign {
        i + 2
    } else {
        i + 1
    };
    match find_close(s, j) {
        None => {},
        Some(c) => {
            lemma_find_close(s, j, c);
            match find_pipe(s, j, c) {
                None => {},
                Some(p) => {
                    if c <= p + 1 {
                        match find_close(s, c + 1) {
                            Some(q) => {
                                lemma_find_close(s, c + 1, q);
                            },
                            None => {},
                        }
                    }
                },
            }
        },
    }
}

/// An entity-escape match at position `i`: the replacement character
/// and the length of the matched escape.
pub open spec fn escape_match(s: Seq<char>, i: int) -> Option<(char, int)> {
    if 0 <= i && i + 5 <= s.len() && s[i] == '&' && s[i + 1] == 'a' && s[i + 2] == 'm' && s[i + 3]
        == 'p' && s[i + 4] == ';' {
        Some(('&', 5))
    } else if 0 <= i && i + 4 <= s.len() && s[i] == '&' && s[i + 1] == 'l' && s[i + 2] == 't' && s[i
        + 3] == ';' {
        Some(('<', 4))
    } else if 0 <= i && i + 4 <= s.len() && s[i] == '&' && s[i + 1] == 'g' && s[i + 2] == 't' && s[i
        + 3] == ';' {
        Some(('>', 4))
    } else {
        None
    }
}

/// The rendered `name` of the entity under `id`: present exactly when
/// the directory holds `id` and that entity's first `name` field is a
/// string.
pub open spec fn name_of(dir: Map<Seq<char>, ValueModel>, id: Seq<char>) -> Option<Seq<char>> {
    if dir.contains_key(id) {
        match get_field_model(dir[id], "name"@) {
            Some(f) => match f {
                ValueModel::Str(nm) => Some(nm),
                _ => None,
            },
            None => None,
        }
    } else {
        None
    }
}

/// The characters a sign contributes as a prefix.
pub open spec fn sign_seq(sign: Option<char>) -> Seq<char> {
    match sign {
        Some(g) => seq![g],
        None => Seq::empty(),
    }
}

/// The rewrite of one bracket token. A present title wins outright,
/// prefixed by the sign unless the sign is `!`. Otherwise `@` and `#`
/// look the reference up: a found entity with a string `name` renders
/// as sign plus name, and anything else falls back to the literal sign
/// plus reference. `!` renders as `@` plus reference without lookup,
/// and a token without sign yields its reference unchanged.
pub open spec fn render_bracket(m: BracketMatch, dir: Map<Seq<char>, ValueModel>) -> Seq<char> {
    match m.title {
        Some(t) => if m.sign == Some('!') {
            t
        } else {
            sign_seq(m.sign) + t
        },
        None => match m.sign {
            Some(g) => if g == '@' || g == '#' {
                match name_of(dir, m.reference) {
                    Some(nm) => seq![g] + nm,
                    None => seq![g] + m.reference,
                }
            } else {
                seq!['@'] + m.reference
            },
            None => m.reference,
        },
    }
}

/// The resolved text of the suffix of `s` that starts at position `i`:
/// at each position an entity escape is tried first, then a bracket
/// token, and otherwise one character is copied through.
pub open spec fn resolve_from(s: Seq<char>, i: int, dir: Map<Seq<char>, ValueModel>) -> Seq<char>
    decreases s.len() - i,
    when 0 <= i <= s.len()
{
    if i >= s.len() {
        Seq::empty()
    } else {
        match escape_match(s, i) {
            Some(r) => seq![r.0] + resolve_from(s, i + r.1, dir),
            None => {
                if s[i] == '<' {
                    match bracket_match(s, i) {
                        Some(m) => {
                            proof {
                                lemma_bracket_match(s, i, m);
                            }
                            render_bracket(m, dir) + resolve_from(s, m.end + 1, dir)
                        },
                        None => seq![s[i]] + resolve_from(s, i + 1, dir),
                    }
                } else {
                    seq![s[i]] + resolve_from(s, i + 1, dir)
                }
            },
        }
    }
}

/// The resolved text of `s` under directory `dir`.
pub open spec fn resolve_spec(s: Seq<char>, dir: Map<Seq<char>, ValueModel>) -> Seq<char> {
    resolve_from(s, 0, dir)
}

/// Resolving a suffix of text that holds neither `&` nor `<` yields
/// that suffix unchanged.
pub proof fn lemma_resolve_plain_from(s: Seq<char>, i: int, dir: Map<Seq<char>, ValueModel>)
    requires
        0 <= i <= s.len(),
        forall|k: int| 0 <= k < s.len() ==> s[k] != '&' && s[k] != '<',
    ensures
        resolve_from(s, i, dir) == s.subrange(i, s.len() as int),
    decreases s.len() - i,
{
    if i < s.len() {
        assert(escape_match(s, i) is None);
        lemma_resolve_plain_from(s, i + 1, dir);
        assert(s.subrange(i, s.len() as int) =~= seq![s[i]] + s.subrange(i + 1, s.len() as int));
    } else {
        assert(s.subrange(i, s.len() as int) =~= Seq::<char>::empty());
    }
}

/// Identity on plain text: text with no `&` and no `<` resolves to
/// itself, under every directory.
pub proof fn lemma_plain_text_identity(s: Seq<char>, dir: Map<Seq<char>, ValueModel>)
    requires
        forall|k: int| 0 <= k < s.len() ==> s[k] != '&' && s[k] != '<',
    ensures
        resolve_spec(s, dir) == s,
{
    lemma_resolve_plain_from(s, 0, dir);
    assert(s.subrange(0, s.len() as int) =~= s);
}

/// A title always wins over lookup: a bracket token carrying a title
/// renders identically under every directory, as the title prefixed by
/// the sign, with the `!` sign (and an absent sign) contributing no
/// prefix.
pub proof fn lemma_title_wins(
    m: BracketMatch,
    t: Seq<char>,
    dir1: Map<Seq<char>, ValueModel>,
    dir2: Map<Seq<char>, ValueModel>,
)
    requires
        m.title == Some(t),
    ensures
        render_bracket(m, dir1) == render_bracket(m, dir2),
        m.sign == Some('!') ==> render_bracket(m, dir1) == t,
        m.sign is None ==> render_bracket(m, dir1) == t,
        m.sign is Some && m.sign != Some('!') ==> render_bracket(m, dir1) == sign_seq(m.sign) + t,
{
    if m.sign is None {
        assert(sign_seq(m.sign) + t =~= t);
    }
}

/// The three entity escapes resolve to their characters, under every
/// directory.
pub proof fn lemma_escapes(dir: Map<Seq<char>, ValueModel>)
    ensures
        resolve_spec("&amp;"@, dir) == "&"@,
        resolve_spec("&lt;"@, dir) == "<"@,
        resolve_spec("&gt;"@, dir) == ">"@,
{
    reveal_strlit("&amp;");
    reveal_strlit("&lt;");
    reveal_strlit("&gt;");
    reveal_strlit("&");
    reveal_strlit("<");
    reveal_strlit(">");
    assert(escape_match("&amp;"@, 0) == Some(('&', 5int)));
    assert(resolve_from("&amp;"@, 5, dir) == Seq::<char>::empty());
    assert(resolve_spec("&amp;"@, dir) == seq!['&'] + resolve_from("&amp;"@, 5, dir));
    assert(resolve_spec("&amp;"@, dir) =~= "&"@);
    assert(escape_match("&lt;"@, 0) == Some(('<', 4int)));
    assert(resolve_from("&lt;"@, 4, dir) == Seq::<char>::empty());
    assert(resolve_spec("&lt;"@, dir) == seq!['<'] + resolve_from("&lt;"@, 4, dir));
    assert(resolve_spec("&lt;"@, dir) =~= "<"@);
    assert(escape_match("&gt;"@, 0) == Some(('>', 4int)));
    assert(resolve_from("&gt;"@, 4, dir) == Seq::<char>::empty());
    assert(resolve_spec("&gt;"@, dir) == seq!['>'] + resolve_from("&gt;"@, 4, dir));
    assert(resolve_spec("&gt;"@, dir) =~= ">"@);
}

/// Title over lookup on a whole message: `<#C1|display>` resolves to
/// `#display` under every directory, whether or not `C1` is known.
pub proof fn lemma_title_wins_message(dir: Map<Seq<char>, ValueModel>)
    ensures
        resolve_spec("<#C1|display>"@, dir) == "#display"@,
{
    reveal_strlit("<#C1|display>");
    reveal_strlit("#display");
    let s = "<#C1|display>"@;
    assert(s.len() == 13);
    assert(find_close(s, 2) == Some(12int)) by {
        reveal_with_fuel(find_close, 12);
    }
    assert(find_pipe(s, 2, 12) == Some(4int)) by {
        reveal_with_fuel(find_pipe, 4);
    }
    let m = BracketMatch {
        end: 12,
        sign: Some('#'),
        reference: s.subrange(2, 4),
        title: Some(s.subrange(5, 12)),
    };
    assert(bracket_match(s, 0) == Some(m));
    assert(resolve_from(s, 13, dir) == Seq::<char>::empty());
    assert(resolve_spec(s, dir) == render_bracket(m, dir) + resolve_from(s, 13, dir));
    assert(resolve_spec(s, dir) =~= seq!['#'] + s.subrange(5, 12));
    assert(resolve_spec(s, dir) =~= "#display"@);
}

/// The `!` sign without a title renders as `@` followed by the
/// reference, with no lookup involved.
pub proof fn lemma_special_sign_without_title(m: BracketMatch, dir: Map<Seq<char>, ValueModel>)
    requires
        m.sign == Some('!'),
        m.title is None,
    ensures
        render_bracket(m, dir) == seq!['@'] + m.reference,
{
}

/// A bare token, with no sign and no title, passes its reference
/// through unchanged, under every directory.
pub proof fn lemma_bare_token(m: BracketMatch, dir: Map<Seq<char>, ValueModel>)
    requires
        m.sign is None,
        m.title is None,
    ensures
        render_bracket(m, dir) == m.reference,
{
}

/// Scan for the closing `>` of a bracket opening before `j`.
fn find_close_exec(s: &str, j: usize) -> (r: Option<usize>)
    requires
        j <= s@.len(),
    ensures
        match r {
            Some(c) => find_close(s@, j as int) == Some(c as int) && j <= c < s@.len(),
            None => find_close(s@, j as int) is None,
        },
{
    let n = s.unicode_len();
    let mut k: usize = j;
    while k < n
        invariant
            j <= k <= n,
            n == s@.len(),
            find_close(s@, j as int) == find_close(s@, k as int),
        decreases n - k,
    {
        let ch = s.get_char(k);
        if ch == '>' {
            return Some(k);
        }
        if ch == '\n' {
            return None;
        }
        k += 1;
    }
    None
}

/// Scan `[j, c)` for the first `|`.
fn find_pipe_exec(s: &str, j: usize, c: usize) -> (r: Option<usize>)
    requires
        j <= c <= s@.len(),
    ensures
        match r {
            Some(p) => find_pipe(s@, j as int, c as int) == Some(p as int) && j <= p < c,
            None => find_pipe(s@, j as int, c as int) is None,
        },
{
    let mut k: usize = j;
    while k < c
        invariant
            j <= k <= c,
            c <= s@.len(),
            find_pipe(s@, j as int, c as int) == find_pipe(s@, k as int, c as int),
        decreases c - k,
    {
        let ch = s.get_char(k);
        if ch == '|' {
            return Some(k);
        }
        k += 1;
    }
    None
}

/// Rewrite the bracket token opening at `i` (which holds `<`) onto
/// `out`, or copy the `<` through when no token opens there; the
/// returned position is where scanning continues.
#[verifier::rlimit(100)]
fn append_bracket(out: &mut String, message: &str, i: usize, directory: &Directory) -> (next: usize)
    requires
        i < message@.len(),
        message@[i as int] == '<',
    ensures
        match bracket_match(message@, i as int) {
            Some(m) => final(out)@ == old(out)@ + render_bracket(m, directory@) && next == m.end
                + 1,
            None => final(out)@ == old(out)@ + seq![message@[i as int]] && next == i + 1,
        },
{
    let ghost s = message@;
    let ghost dir = directory@;
    let ghost out0 = out@;
    let n = message.unicode_len();
    let has_sign = if i + 1 < n {
        let sc = message.get_char(i + 1);
        sc == '#' || sc == '@' || sc == '!'
    } else {
        false
    };
    let j = if has_sign {
        i + 2
    } else {
        i + 1
    };
    match find_close_exec(message, j) {
        None => {
            out.append("<");
            proof {
                reveal_strlit("<");
                assert(bracket_match(s, i as int) is None);
                assert(out@ =~= out0 + seq![s[i as int]]);
            }
            i + 1
        },
        Some(cpos) => {
            let ghost gsign: Option<char> = if has_sign {
                Some(s[i as int + 1])
            } else {
                None
            };
            let ghost mut m = BracketMatch {
                end: 0,
                sign: None,
                reference: Seq::empty(),
                title: None,
            };
            let mut end_pos: usize = cpos;
            let mut title_span: Option<(usize, usize)> = None;
            match find_pipe_exec(message, j, cpos) {
                None => {
                    proof {
                        m = BracketMatch {
                            end: cpos as int,
                            sign: gsign,
                            reference: s.subrange(j as int, cpos as int),
                            title: None,
                        };
                        assert(bracket_match(s, i as int) == Some(m));
                    }
                },
                Some(p) => {
                    if cpos > p + 1 {
                        title_span = Some((p + 1, cpos));
                        proof {
                            m = BracketMatch {
                                end: cpos as int,
                                sign: gsign,
                                reference: s.subrange(j as int, p as int),
                                title: Some(s.subrange(p as int + 1, cpos as int)),
                            };
                            assert(bracket_match(s, i as int) == Some(m));
                        }
                    } else {
                        match find_close_exec(message, cpos + 1) {
                            Some(q) => {
                                end_pos = q;
                                title_span = Some((p + 1, q));
                                proof {
                                    m = BracketMatch {
                                        end: q as int,
                                        sign: gsign,
                                        reference: s.subrange(j as int, p as int),
                                        title: Some(s.subrange(p as int + 1, q as int)),
                                    };
                                    assert(bracket_match(s, i as int) == Some(m));
                                }
                            },
                            None => {
                                proof {
                                    m = BracketMatch {
                                        end: cpos as int,
                                        sign: gsign,
                                        reference: s.subrange(j as int, cpos as int),
                                        title: None,
                                    };
                                    assert(bracket_match(s, i as int) == Some(m));
                                }
                            },
                        }
                    }
                },
            }
            match title_span {
                Some((ts, te)) => {
                    if has_sign && message.get_char(i + 1) != '!' {
                        out.append(message.substring_char(i + 1, i + 2));
                        proof {
                            assert(s.subrange(i as int + 1, i as int + 2) =~= seq![
                                s[i as int + 1],
                            ]);
                        }
                    }
                    out.append(message.substring_char(ts, te));
                    proof {
                        assert(out@ =~= out0 + render_bracket(m, dir));
                    }
                },
                None => {
                    if has_sign {
                        let sc = message.get_char(i + 1);
                        if sc == '!' {
                            out.append("@");
                            out.append(message.substring_char(j, end_pos));
                            proof {
                                reveal_strlit("@");
                                assert(out@ =~= out0 + render_bracket(m, dir));
                            }
                        } else {
                            let refstr = message.substring_char(j, end_pos);
                            let mut resolved = false;
                            match directory.lookup(refstr) {
                                Some(entity) => match entity.get_field("name") {
                                    Some(f) => match f {
                                        Value::Str(nm) => {
                                            out.append(message.substring_char(i + 1, i + 2));
                                            out.append(nm.as_str());
                                            resolved = true;
                                            proof {
                                                assert(f.model() == ValueModel::Str(nm@));
                                                assert(name_of(dir, m.reference) == Some(nm@));
                                                assert(s.subrange(i as int + 1, i as int + 2) =~=
                                                    seq![s[i as int + 1]]);
                                                assert(out@ =~= out0 + render_bracket(m, dir));
                                            }
                                        },
                                        _ => {
                                            proof {
                                                assert(name_of(dir, m.reference) is None);
                                            }
                                        },
                                    },
                                    None => {
                                        proof {
                                            assert(name_of(dir, m.reference) is None);
                                        }
                                    },
                                },
                                None => {
                                    proof {
                                        assert(name_of(dir, m.reference) is None);
                                    }
                                },
                            }
                            if !resolved {
                                out.append(message.substring_char(i + 1, end_pos));
                                proof {
                                    assert(s.subrange(i as int + 1, end_pos as int) =~= seq![
                                        s[i as int + 1],
                                    ] + s.subrange(i as int + 2, end_pos as int));
                                    assert(out@ =~= out0 + render_bracket(m, dir));
                                }
                            }
                        }
                    } else {
                        out.append(message.substring_char(j, end_pos));
                        proof {
                            assert(out@ =~= out0 + render_bracket(m, dir));
                        }
                    }
                },
            }
            end_pos + 1
        },
    }
}

/// Resolve a raw message under a directory: rewrite every entity
/// escape and every bracket token as `resolve_from` describes, and
/// copy every other character through unchanged. Total: malformed
/// markup is never an error, it passes through as literal text.
#[verifier::rlimit(100)]
pub fn format_message(message: &str, directory: &Directory) -> (r: String)
    ensures
        r@ == resolve_spec(message@, directory@),
{
    let ghost s = message@;
    let ghost dir = directory@;
    let n = message.unicode_len();
    let mut out = String::new();
    let mut i: usize = 0;
    while i < n
        invariant
            i <= n,
            n == s.len(),
            s == message@,
            dir == directory@,
            out@ + resolve_from(s, i as int, dir) == resolve_from(s, 0, dir),
        decreases n - i,
    {
        let ghost out0 = out@;
        let c0 = message.get_char(i);
        if c0 == '&' && n - i >= 5 && message.get_char(i + 1) == 'a' && message.get_char(i + 2)
            == 'm' && message.get_char(i + 3) == 'p' && message.get_char(i + 4) == ';' {
            out.append("&");
            proof {
                reveal_strlit("&");
                assert(escape_match(s, i as int) == Some(('&', 5 as int)));
                assert(resolve_from(s, i as int, dir) == seq!['&'] + resolve_from(
                    s,
                    i as int + 5,
                    dir,
                ));
                assert(out@ =~= out0 + seq!['&']);
                assert(out@ + resolve_from(s, i as int + 5, dir) =~= resolve_from(s, 0, dir));
            }
            i += 5;
        } else if c0 == '&' && n - i >= 4 && message.get_char(i + 1) == 'l' && message.get_char(
            i + 2,
        ) == 't' && message.get_char(i + 3) == ';' {
            out.append("<");
            proof {
                reveal_strlit("<");
                assert(escape_match(s, i as int) == Some(('<', 4 as int)));
                assert(resolve_from(s, i as int, dir) == seq!['<'] + resolve_from(
                    s,
                    i as int + 4,
                    dir,
                ));
                assert(out@ =~= out0 + seq!['<']);
                assert(out@ + resolve_from(s, i as int + 4, dir) =~= resolve_from(s, 0, dir));
            }
            i += 4;
        } else if c0 == '&' && n - i >= 4 && message.get_char(i + 1) == 'g' && message.get_char(
            i + 2,
        ) == 't' && message.get_char(i + 3) == ';' {
            out.append(">");
            proof {
                reveal_strlit(">");
                assert(escape_match(s, i as int) == Some(('>', 4 as int)));
                assert(resolve_from(s, i as int, dir) == seq!['>'] + resolve_from(
                    s,
                    i as int + 4,
                    dir,
                ));
                assert(out@ =~= out0 + seq!['>']);
                assert(out@ + resolve_from(s, i as int + 4, dir) =~= resolve_from(s, 0, dir));
            }
            i += 4;
        } else if c0 == '<' {
            let next = append_bracket(&mut out, message, i, directory);
            proof {
                assert(escape_match(s, i as int) is None);
                match bracket_match(s, i as int) {
                    Some(m) => {
                        lemma_bracket_match(s, i as int, m);
                        assert(resolve_from(s, i as int, dir) == render_bracket(m, dir)
                            + resolve_from(s, m.end + 1, dir));
                    },
                    None => {
                        assert(resolve_from(s, i as int, dir) == seq![s[i as int]] + resolve_from(
                            s,
                            i as int + 1,
                            dir,
                        ));
                    },
                }
                assert(out@ + resolve_from(s, next as int, dir) =~= resolve_from(s, 0, dir));
            }
            i = next;
        } else {
            out.append(message.substring_char(i, i + 1));
            proof {
                assert(escape_match(s, i as int) is None);
                assert(s.subrange(i as int, i as int + 1) =~= seq![s[i as int]]);
                assert(resolve_from(s, i as int, dir) == seq![s[i as int]] + resolve_from(
                    s,
                    i as int + 1,
                    dir,
                ));
                assert(out@ + resolve_from(s, i as int + 1, dir) =~= resolve_from(s, 0, dir));
            }
            i += 1;
        }
    }
    out
}

} // verus!
