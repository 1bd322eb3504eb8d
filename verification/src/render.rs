//! The renderer: one linear pass over the atom stream.
//!
//! The render state is the text produced so far and the indentation depth.
//! A hard line break emits a newline unless the output already ends in one;
//! a blank-line directive tops the trailing newline run up to its capped
//! request; a space is emitted only directly after text; token and literal
//! text is emitted verbatim, preceded by the current indentation when it
//! opens a line.  Ending an indentation block below depth zero, or ending
//! the stream above it, is an internal error — imbalance is reported, never
//! silently clamped.

use vstd::prelude::*;
use vstd::string::*;
use vstd::seq_lib::group_filter_ensures;
use crate::error::{FormatterError, FormatterErrorV};
use crate::query::{Directive, DirectiveV};
use crate::atoms::{Atom, AtomV};
use crate::strutil::{
    trailing_newlines, trailing_nl_of, newlines, spaces, lemma_trailing_concat,
    lemma_trailing_newlines_le_len, lemma_trailing_of_newlines,
};

verus! {

broadcast use group_filter_ensures;

/// Rendering knobs: the width of one indentation unit, in spaces, and the
/// global ceiling on consecutive blank lines.
#[derive(Clone, Copy, Debug, PartialEq, Eq, Structural)]
pub struct Config {
    pub indent_width: usize,
    pub max_blank_lines: u64,
}

impl Config {
    /// The blank-line ceiling leaves room for the one newline that opens a
    /// blank run: the renderer's newline target is the ceiling plus one.
    pub open spec fn wf(self) -> bool {
        self.max_blank_lines < u64::MAX
    }
}

impl Default for Config {
    /// Two spaces per indentation unit; at most one consecutive blank line.
    fn default() -> (c: Config)
        ensures
            c == (Config { indent_width: 2, max_blank_lines: 1 }),
            c.wf(),
    {
        Config { indent_width: 2, max_blank_lines: 1 }
    }
}

/// The state of the single rendering pass.
#[verifier::ext_equal]
pub struct RState {
    pub out: Seq<char>,
    pub depth: nat,
}

/// The internal defects the renderer can uncover.
#[derive(Clone, Copy, Debug, PartialEq, Eq, Structural)]
pub enum RenderFault {
    /// More indentation ends than starts, or the reverse, reached the
    /// renderer.
    Unbalanced,
    /// A token range lies outside the source text.
    Range,
}

/// The message each render fault is reported with.
pub open spec fn fault_message(f: RenderFault) -> Seq<char> {
    match f {
        RenderFault::Unbalanced => "unbalanced indentation in atom stream"@,
        RenderFault::Range => "token range outside the source text"@,
    }
}

/// Emitting text: nothing for empty text; otherwise the current
/// indentation when the output sits at a line start, then the text itself.
pub open spec fn emit_text_spec(st: RState, t: Seq<char>, cfg: Config) -> RState {
    if t.len() == 0 {
        st
    } else {
        let pre = if trailing_newlines(st.out) > 0 {
            spaces(st.depth * (cfg.indent_width as nat))
        } else {
            Seq::empty()
        };
        RState { out: st.out + pre + t, depth: st.depth }
    }
}

/// One atom's effect on the render state.
pub open spec fn step_spec(st: RState, a: AtomV, src: Seq<char>, cfg: Config) -> Result<
    RState,
    RenderFault,
> {
    match a {
        AtomV::Leaf(s, e) => if s <= e && e <= src.len() {
            Ok(emit_text_spec(st, src.subrange(s as int, e as int), cfg))
        } else {
            Err(RenderFault::Range)
        },
        AtomV::Dir(d) => match d {
            DirectiveV::InsertSpace => Ok(
                if st.out.len() > 0 && trailing_newlines(st.out) == 0 && st.out.last() != ' ' {
                    RState { out: st.out + seq![' '], depth: st.depth }
                } else {
                    st
                },
            ),
            DirectiveV::InsertHardline => Ok(
                if st.out.len() > 0 && trailing_newlines(st.out) == 0 {
                    RState { out: st.out + seq!['\n'], depth: st.depth }
                } else {
                    st
                },
            ),
            DirectiveV::InsertBlankLines(n) => {
                let want = (if n < cfg.max_blank_lines {
                    n
                } else {
                    cfg.max_blank_lines
                }) + 1;
                Ok(
                    if st.out.len() == 0 {
                        st
                    } else if trailing_newlines(st.out) < want {
                        RState {
                            out: st.out + newlines((want - trailing_newlines(st.out)) as nat),
                            depth: st.depth,
                        }
                    } else {
                        st
                    },
                )
            },
            DirectiveV::IndentStart => Ok(RState { out: st.out, depth: st.depth + 1 }),
            DirectiveV::IndentEnd => if st.depth == 0 {
                Err(RenderFault::Unbalanced)
            } else {
                Ok(RState { out: st.out, depth: (st.depth - 1) as nat })
            },
            DirectiveV::Literal(t) => Ok(emit_text_spec(st, t, cfg)),
            DirectiveV::NoSpace => Ok(st),
            DirectiveV::Delete => Ok(st),
        },
    }
}

/// The render state after the first `i` atoms, starting from empty output
/// at depth zero.
pub open spec fn run_upto(atoms: Seq<AtomV>, src: Seq<char>, cfg: Config, i: int) -> Result<
    RState,
    RenderFault,
>
    decreases i,
{
    if i <= 0 {
        Ok(RState { out: Seq::empty(), depth: 0 })
    } else {
        match run_upto(atoms, src, cfg, i - 1) {
            Err(f) => Err(f),
            Ok(st) => step_spec(st, atoms[i - 1], src, cfg),
        }
    }
}

/// The rendered text of a whole atom stream; a depth left above zero at
/// the end of the stream is the unbalanced-indentation defect.
pub open spec fn render_run(atoms: Seq<AtomV>, src: Seq<char>, cfg: Config) -> Result<
    Seq<char>,
    RenderFault,
> {
    match run_upto(atoms, src, cfg, atoms.len() as int) {
        Err(f) => Err(f),
        Ok(st) => if st.depth == 0 {
            Ok(st.out)
        } else {
            Err(RenderFault::Unbalanced)
        },
    }
}

/// A fault, once reached, is the outcome of every longer prefix.
pub proof fn lemma_run_error_persists(atoms: Seq<AtomV>, src: Seq<char>, cfg: Config, j: int, k: int)
    requires
        0 <= j <= k,
        run_upto(atoms, src, cfg, j) is Err,
    ensures
        run_upto(atoms, src, cfg, k) == run_upto(atoms, src, cfg, j),
    decreases k - j,
{
    if k > j {
        lemma_run_error_persists(atoms, src, cfg, j, k - 1);
    }
}

/// Appends one space character.
fn push_space(out: &mut String)
    ensures
        final(out)@ == old(out)@ + seq![' '],
{
    proof {
        reveal_strlit(" ");
        assert(" "@ =~= seq![' ']);
    }
    out.append(" ");
}

/// Appends one newline character.
fn push_newline(out: &mut String)
    ensures
        final(out)@ == old(out)@ + seq!['\n'],
{
    proof {
        reveal_strlit("\n");
        assert("\n"@ =~= seq!['\n']);
    }
    out.append("\n");
}

/// Appends `k` spaces.
fn push_spaces(out: &mut String, k: usize)
    ensures
        final(out)@ == old(out)@ + spaces(k as nat),
{
    let mut j: usize = 0;
    while j < k
        invariant
            j <= k,
            out@ == old(out)@ + spaces(j as nat),
        decreases k - j,
    {
        push_space(out);
        proof {
            assert(old(out)@ + spaces(j as nat) + seq![' '] =~= old(out)@ + spaces((j + 1) as nat));
        }
        j = j + 1;
    }
    proof {
        assert(out@ =~= old(out)@ + spaces(k as nat));
    }
}

/// Appends `depth` indentation units.
fn push_indent(out: &mut String, depth: usize, width: usize)
    ensures
        final(out)@ == old(out)@ + spaces((depth * width) as nat),
{
    let mut d: usize = 0;
    while d < depth
        invariant
            d <= depth,
            out@ == old(out)@ + spaces((d * width) as nat),
        decreases depth - d,
    {
        push_spaces(out, width);
        proof {
            assert((d + 1) * width == d * width + width) by (nonlinear_arith);
            assert(old(out)@ + spaces((d * width) as nat) + spaces(width as nat) =~= old(out)@
                + spaces(((d + 1) * width) as nat));
        }
        d = d + 1;
    }
    proof {
        assert(out@ =~= old(out)@ + spaces((depth * width) as nat));
    }
}

/// Emits one text piece, indenting first when the output sits at a line
/// start.
fn emit_text(out: &mut String, t: &str, depth: usize, cfg: &Config)
    ensures
        final(out)@ == emit_text_spec(
            RState { out: old(out)@, depth: depth as nat },
            t@,
            *cfg,
        ).out,
{
    let tl: usize = t.unicode_len();
    if tl == 0 {
        return ;
    }
    let run: usize = trailing_nl_of(out.as_str());
    let ghost base = out@;
    if run > 0 {
        push_indent(out, depth, cfg.indent_width);
        proof {
            assert((depth * cfg.indent_width) as nat == (depth as nat) * (cfg.indent_width as nat));
        }
    }
    out.append(t);
    proof {
        if run > 0 {
            assert(out@ =~= base + spaces((depth as nat) * (cfg.indent_width as nat)) + t@);
        } else {
            assert(out@ =~= base + Seq::<char>::empty() + t@);
        }
    }
}

/// Renders the atom stream into text: a single linear pass, tracking the
/// indentation depth and the blank-line budget, deterministic given its
/// inputs.  A token range outside the source or an unbalanced indentation
/// stack is reported as an internal error.
pub fn render(atoms: &Vec<Atom>, src: &str, cfg: &Config) -> (r: Result<String, FormatterError>)
    requires
        cfg.wf(),
    ensures
        (match r {
            Ok(s) => render_run(atoms@.map_values(|a: Atom| a@), src@, *cfg) == Ok::<
                Seq<char>,
                RenderFault,
            >(s@),
            Err(e) => render_run(atoms@.map_values(|a: Atom| a@), src@, *cfg) matches Err(f)
                && e@ == FormatterErrorV::Internal(fault_message(f)),
        }),
{
    let ghost av = atoms@.map_values(|a: Atom| a@);
    let n: usize = atoms.len();
    let srclen: usize = src.unicode_len();
    let mut out: String = String::new();
    let mut depth: usize = 0;
    let mut i: usize = 0;
    while i < n
        invariant
            i <= n,
            n == atoms@.len(),
            av == atoms@.map_values(|a: Atom| a@),
            av.len() == n,
            srclen == src@.len(),
            cfg.wf(),
            depth <= i,
            run_upto(av, src@, *cfg, i as int) == Ok::<RState, RenderFault>(
                RState { out: out@, depth: depth as nat },
            ),
        decreases n - i,
    {
        let ghost st = RState { out: out@, depth: depth as nat };
        proof {
            assert(av[i as int] == atoms@[i as int]@);
        }
        match &atoms[i] {
            Atom::Leaf(s, e) => {
                let (ls, le): (usize, usize) = (*s, *e);
                if !(ls <= le && le <= srclen) {
                    proof {
                        assert(run_upto(av, src@, *cfg, i + 1) == Err::<RState, RenderFault>(
                            RenderFault::Range,
                        ));
                        lemma_run_error_persists(av, src@, *cfg, i + 1, av.len() as int);
                    }
                    return Err(FormatterError::Internal(String::from_str(
                        "token range outside the source text",
                    )));
                }
                let t: &str = src.substring_char(ls, le);
                emit_text(&mut out, t, depth, cfg);
            },
            Atom::Dir(d) => {
                match d {
                    Directive::InsertSpace => {
                        let ol: usize = out.as_str().unicode_len();
                        let run: usize = trailing_nl_of(out.as_str());
                        let lsp: bool = if ol > 0 {
                            out.as_str().get_char(ol - 1) == ' '
                        } else {
                            false
                        };
                        if ol > 0 && run == 0 && !lsp {
                            push_space(&mut out);
                        }
                    },
                    Directive::InsertHardline => {
                        let ol: usize = out.as_str().unicode_len();
                        let run: usize = trailing_nl_of(out.as_str());
                        if ol > 0 && run == 0 {
                            push_newline(&mut out);
                        }
                    },
                    Directive::InsertBlankLines(m) => {
                        let ol: usize = out.as_str().unicode_len();
                        let run: usize = trailing_nl_of(out.as_str());
                        let want: u64 = (if *m < cfg.max_blank_lines {
                            *m
                        } else {
                            cfg.max_blank_lines
                        }) + 1;
                        proof {
                            lemma_trailing_newlines_le_len(out@);
                        }
                        if ol > 0 && (run as u64) < want {
                            let need: u64 = want - (run as u64);
                            let mut w: u64 = 0;
                            while w < need
                                invariant
                                    w <= need,
                                    out@ == st.out + newlines(w as nat),
                                decreases need - w,
                            {
                                push_newline(&mut out);
                                proof {
                                    assert(st.out + newlines(w as nat) + seq!['\n'] =~= st.out
                                        + newlines((w + 1) as nat));
                                }
                                w = w + 1;
                            }
                            proof {
                                assert(out@ == st.out + newlines(need as nat));
                            }
                        }
                    },
                    Directive::IndentStart => {
                        depth = depth + 1;
                    },
                    Directive::IndentEnd => {
                        if depth == 0 {
                            proof {
                                assert(run_upto(av, src@, *cfg, i + 1) == Err::<
                                    RState,
                                    RenderFault,
                                >(RenderFault::Unbalanced));
                                lemma_run_error_persists(av, src@, *cfg, i + 1, av.len() as int);
                            }
                            return Err(FormatterError::Internal(String::from_str(
                                "unbalanced indentation in atom stream",
                            )));
                        }
                        depth = depth - 1;
                    },
                    Directive::Literal(txt) => {
                        emit_text(&mut out, txt.as_str(), depth, cfg);
                    },
                    Directive::NoSpace => {},
                    Directive::Delete => {},
                }
            },
        }
        proof {
            assert(run_upto(av, src@, *cfg, i + 1) == Ok::<RState, RenderFault>(
                RState { out: out@, depth: depth as nat },
            ));
        }
        i = i + 1;
    }
    if depth != 0 {
        return Err(FormatterError::Internal(String::from_str(
            "unbalanced indentation in atom stream",
        )));
    }
    Ok(out)
}


/// The number of occurrences of one atom value.
pub open spec fn count_atom(atoms: Seq<AtomV>, a: AtomV) -> int
    decreases atoms.len(),
{
    if atoms.len() == 0 {
        0
    } else {
        count_atom(atoms.drop_last(), a) + (if atoms.last() == a {
            1int
        } else {
            0int
        })
    }
}

/// Along an accepted run, the depth is the surplus of `IndentStart` over
/// `IndentEnd` among the atoms seen so far — and hence never negative.
pub proof fn lemma_depth_counts(atoms: Seq<AtomV>, src: Seq<char>, cfg: Config, i: int)
    requires
        0 <= i <= atoms.len(),
        run_upto(atoms, src, cfg, i) is Ok,
    ensures
        (run_upto(atoms, src, cfg, i)->Ok_0).depth == count_atom(
            atoms.take(i),
            AtomV::Dir(DirectiveV::IndentStart),
        ) - count_atom(atoms.take(i), AtomV::Dir(DirectiveV::IndentEnd)),
    decreases i,
{
    if i == 0 {
        assert(atoms.take(0) =~= Seq::<AtomV>::empty());
    } else {
        assert(run_upto(atoms, src, cfg, i - 1) is Ok);
        lemma_depth_counts(atoms, src, cfg, i - 1);
        assert(atoms.take(i).drop_last() =~= atoms.take(i - 1));
        assert(atoms.take(i).last() == atoms[i - 1]);
        let st = run_upto(atoms, src, cfg, i - 1)->Ok_0;
        assert(run_upto(atoms, src, cfg, i) == step_spec(st, atoms[i - 1], src, cfg));
    }
}

/// Indentation balance: a stream the renderer accepts has exactly as many
/// `IndentStart` as `IndentEnd` atoms, and in every prefix the starts are
/// ahead; an imbalanced stream is always reported as an internal error,
/// never silently clamped.
pub proof fn lemma_render_balance(atoms: Seq<AtomV>, src: Seq<char>, cfg: Config)
    ensures
        render_run(atoms, src, cfg) is Ok ==> count_atom(
            atoms,
            AtomV::Dir(DirectiveV::IndentStart),
        ) == count_atom(atoms, AtomV::Dir(DirectiveV::IndentEnd)),
        render_run(atoms, src, cfg) is Ok ==> (forall|i: int|
            0 <= i <= atoms.len() ==> count_atom(
                #[trigger] atoms.take(i),
                AtomV::Dir(DirectiveV::IndentStart),
            ) >= count_atom(atoms.take(i), AtomV::Dir(DirectiveV::IndentEnd))),
        count_atom(atoms, AtomV::Dir(DirectiveV::IndentStart)) != count_atom(
            atoms,
            AtomV::Dir(DirectiveV::IndentEnd),
        ) ==> render_run(atoms, src, cfg) is Err,
{
    if render_run(atoms, src, cfg) is Ok {
        let n = atoms.len() as int;
        lemma_depth_counts(atoms, src, cfg, n);
        assert(atoms.take(n) =~= atoms);
        assert((run_upto(atoms, src, cfg, n)->Ok_0).depth == 0);
        assert forall|i: int|
            0 <= i <= atoms.len() implies count_atom(
            #[trigger] atoms.take(i),
            AtomV::Dir(DirectiveV::IndentStart),
        ) >= count_atom(atoms.take(i), AtomV::Dir(DirectiveV::IndentEnd)) by {
            if run_upto(atoms, src, cfg, i) is Err {
                lemma_run_error_persists(atoms, src, cfg, i, n);
                assert(false);
            }
            lemma_depth_counts(atoms, src, cfg, i);
        }
    }
}


/// A text with every space and newline removed.
pub open spec fn strip_ws(s: Seq<char>) -> Seq<char> {
    s.filter(|c: char| c != ' ' && c != '\n')
}

/// Stripping a text of nothing but spaces and newlines leaves nothing.
pub proof fn lemma_strip_ws_only(s: Seq<char>)
    requires
        forall|j: int| 0 <= j < s.len() ==> (s[j] == ' ' || s[j] == '\n'),
    ensures
        strip_ws(s) == Seq::<char>::empty(),
    decreases s.len(),
{
    reveal(Seq::filter);
    if s.len() > 0 {
        assert(forall|j: int| 0 <= j < s.len() - 1 ==> (s.drop_last()[j] == ' ' || s.drop_last()[j] == '\n'));
        lemma_strip_ws_only(s.drop_last());
    }
}

/// The text carried by one atom: a token's characters, a literal's
/// characters, nothing for the whitespace and indentation directives.
pub open spec fn atom_text(a: AtomV, src: Seq<char>) -> Seq<char> {
    match a {
        AtomV::Leaf(s, e) => if s <= e && e <= src.len() {
            src.subrange(s as int, e as int)
        } else {
            Seq::empty()
        },
        AtomV::Dir(DirectiveV::Literal(t)) => t,
        AtomV::Dir(_) => Seq::empty(),
    }
}

/// The concatenated text content of an atom stream.
pub open spec fn texts_of(atoms: Seq<AtomV>, src: Seq<char>) -> Seq<char>
    decreases atoms.len(),
{
    if atoms.len() == 0 {
        Seq::empty()
    } else {
        texts_of(atoms.drop_last(), src) + atom_text(atoms.last(), src)
    }
}

/// Along an accepted run, the output stripped of spaces and newlines is the
/// stream's text content, equally stripped.
pub proof fn lemma_text_pres_upto(atoms: Seq<AtomV>, src: Seq<char>, cfg: Config, i: int)
    requires
        0 <= i <= atoms.len(),
        run_upto(atoms, src, cfg, i) is Ok,
    ensures
        strip_ws((run_upto(atoms, src, cfg, i)->Ok_0).out) == strip_ws(
            texts_of(atoms.take(i), src),
        ),
    decreases i,
{
    if i == 0 {
        reveal(Seq::filter);
        assert(atoms.take(0) =~= Seq::<AtomV>::empty());
    } else {
        assert(run_upto(atoms, src, cfg, i - 1) is Ok);
        lemma_text_pres_upto(atoms, src, cfg, i - 1);
        assert(atoms.take(i).drop_last() =~= atoms.take(i - 1));
        assert(atoms.take(i).last() == atoms[i - 1]);
        let st = run_upto(atoms, src, cfg, i - 1)->Ok_0;
        let stn = run_upto(atoms, src, cfg, i)->Ok_0;
        let a = atoms[i - 1];
        let t = atom_text(a, src);
        assert(texts_of(atoms.take(i), src) == texts_of(atoms.take(i - 1), src) + t);
        match a {
            AtomV::Leaf(ls, le) => {
                lemma_emit_text_strip(st, src.subrange(ls as int, le as int), cfg);
            },
            AtomV::Dir(d) => {
                match d {
                    DirectiveV::InsertSpace => {
                        if stn.out != st.out {
                            lemma_strip_ws_only(seq![' ']);
                        }
                    },
                    DirectiveV::InsertHardline => {
                        if stn.out != st.out {
                            lemma_strip_ws_only(seq!['\n']);
                        }
                    },
                    DirectiveV::InsertBlankLines(_) => {
                        if stn.out != st.out {
                            let k = stn.out.len() - st.out.len();
                            assert(stn.out == st.out + newlines(k as nat));
                            lemma_strip_ws_only(newlines(k as nat));
                        }
                    },
                    DirectiveV::Literal(txt) => {
                        lemma_emit_text_strip(st, txt, cfg);
                    },
                    _ => {},
                }
            },
        }
        assert(strip_ws(texts_of(atoms.take(i), src)) == strip_ws(texts_of(atoms.take(i - 1), src))
            + strip_ws(t));
    }
}

/// Emitting text adds exactly that text's stripped content.
pub proof fn lemma_emit_text_strip(st: RState, t: Seq<char>, cfg: Config)
    ensures
        strip_ws(emit_text_spec(st, t, cfg).out) == strip_ws(st.out) + strip_ws(t),
{
    if t.len() == 0 {
        reveal(Seq::filter);
        assert(strip_ws(t) == Seq::<char>::empty());
        assert(strip_ws(st.out) + strip_ws(t) =~= strip_ws(st.out));
    } else {
        let pre = if trailing_newlines(st.out) > 0 {
            spaces(st.depth * (cfg.indent_width as nat))
        } else {
            Seq::<char>::empty()
        };
        lemma_strip_ws_only(pre);
        assert(strip_ws(st.out + pre + t) == strip_ws(st.out + pre) + strip_ws(t));
        assert(strip_ws(st.out + pre) == strip_ws(st.out) + strip_ws(pre));
        assert(strip_ws(st.out) + Seq::<char>::empty() =~= strip_ws(st.out));
    }
}

/// Text preservation: stripping all inserted whitespace from the rendered
/// output yields exactly the stream's token and literal text, equally
/// stripped of its own spaces and newlines — rendering neither loses nor
/// invents token text.
pub proof fn lemma_render_text_preservation(atoms: Seq<AtomV>, src: Seq<char>, cfg: Config)
    ensures
        (render_run(atoms, src, cfg) matches Ok(out) ==> strip_ws(out) == strip_ws(
            texts_of(atoms, src),
        )),
{
    if render_run(atoms, src, cfg) is Ok {
        lemma_text_pres_upto(atoms, src, cfg, atoms.len() as int);
        assert(atoms.take(atoms.len() as int) =~= atoms);
    }
}


/// `len` consecutive newlines sit at `start`.
pub open spec fn all_nl(s: Seq<char>, start: int, len: int) -> bool {
    forall|p: int| start <= p < start + len ==> s[p] == '\n'
}

/// No window of `cap + 2` consecutive newlines occurs anywhere: the text
/// never holds more than `cap` consecutive blank lines.
pub open spec fn no_long_nl_run(s: Seq<char>, cap: int) -> bool {
    forall|i: int| 0 <= i && i + cap + 2 <= s.len() ==> !(#[trigger] all_nl(s, i, cap + 2))
}

/// A text without any newline character.
pub open spec fn text_newline_free(t: Seq<char>) -> bool {
    forall|j: int| 0 <= j < t.len() ==> t[j] != '\n'
}

/// Every token and literal text of the stream is newline-free; a token
/// spanning several lines is outside this bound.
pub open spec fn atoms_newline_free(atoms: Seq<AtomV>, src: Seq<char>) -> bool {
    forall|j: int| 0 <= j < atoms.len() ==> text_newline_free(atom_text(#[trigger] atoms[j], src))
}

/// A newline-only suffix bounds the trailing run from below.
pub proof fn lemma_suffix_nl_ge(a: Seq<char>, j: int)
    requires
        0 <= j <= a.len(),
        forall|p: int| j <= p < a.len() ==> a[p] == '\n',
    ensures
        trailing_newlines(a) >= a.len() - j,
    decreases a.len(),
{
    lemma_trailing_newlines_le_len(a);
    if j < a.len() {
        assert(a[a.len() - 1] == '\n');
        assert(a.last() == '\n');
        assert forall|p: int| j <= p < a.len() - 1 implies a.drop_last()[p] == '\n' by {
            assert(a.drop_last()[p] == a[p]);
        }
        lemma_suffix_nl_ge(a.drop_last(), j);
        assert(trailing_newlines(a) == 1 + trailing_newlines(a.drop_last()));
    }
}

/// Appending newline-free text cannot create a long newline run.
pub proof fn lemma_no_long_run_append_clean(a: Seq<char>, b: Seq<char>, cap: int)
    requires
        cap >= 0,
        no_long_nl_run(a, cap),
        text_newline_free(b),
    ensures
        no_long_nl_run(a + b, cap),
{
    if b.len() == 0 {
        assert(a + b =~= a);
    } else {
        assert forall|i: int| 0 <= i && i + cap + 2 <= (a + b).len() implies !(#[trigger] all_nl(
            a + b,
            i,
            cap + 2,
        )) by {
            if i + cap + 2 <= a.len() {
                if all_nl(a + b, i, cap + 2) {
                    assert forall|p: int| i <= p < i + cap + 2 implies a[p] == '\n' by {
                        assert((a + b)[p] == a[p]);
                    }
                    assert(all_nl(a, i, cap + 2));
                }
            } else {
                let p = i + cap + 1;
                assert(a.len() <= p < (a + b).len());
                assert((a + b)[p] == b[p - a.len()]);
                assert(b[p - a.len()] != '\n');
                if all_nl(a + b, i, cap + 2) {
                    assert((a + b)[p] == '\n');
                }
            }
        }
    }
}

/// Appending newlines within the budget cannot create a long run either.
pub proof fn lemma_no_long_run_append_nl(a: Seq<char>, k: nat, cap: int)
    requires
        cap >= 0,
        no_long_nl_run(a, cap),
        trailing_newlines(a) + k <= cap + 1,
        a.len() > 0 ==> trailing_newlines(a) < a.len(),
        a.len() > 0,
    ensures
        no_long_nl_run(a + newlines(k), cap),
        trailing_newlines(a + newlines(k)) == trailing_newlines(a) + k,
{
    lemma_trailing_of_newlines(k);
    lemma_trailing_concat(a, newlines(k));
    if k == 0 {
        assert(a + newlines(0) =~= a);
    }
    let b = newlines(k);
    assert forall|i: int| 0 <= i && i + cap + 2 <= (a + b).len() implies !(#[trigger] all_nl(
        a + b,
        i,
        cap + 2,
    )) by {
        if all_nl(a + b, i, cap + 2) {
            if i + cap + 2 <= a.len() {
                assert forall|p: int| i <= p < i + cap + 2 implies a[p] == '\n' by {
                    assert((a + b)[p] == a[p]);
                }
                assert(all_nl(a, i, cap + 2));
            } else {
                let j = if i < a.len() {
                    i
                } else {
                    a.len() as int
                };
                assert forall|p: int| j <= p < a.len() implies a[p] == '\n' by {
                    assert((a + b)[p] == a[p]);
                }
                lemma_suffix_nl_ge(a, j);
                assert(trailing_newlines(a) >= a.len() - j);
                assert(i + cap + 2 <= a.len() + k);
                assert(false);
            }
        }
    }
}

/// Along an accepted run over newline-free texts, the output never holds a
/// newline run beyond the configured budget, the trailing run stays within
/// it, and nonempty output never consists of newlines alone.
pub proof fn lemma_blank_bound_upto(atoms: Seq<AtomV>, src: Seq<char>, cfg: Config, i: int)
    requires
        0 <= i <= atoms.len(),
        atoms_newline_free(atoms, src),
        run_upto(atoms, src, cfg, i) is Ok,
    ensures
        no_long_nl_run((run_upto(atoms, src, cfg, i)->Ok_0).out, cfg.max_blank_lines as int),
        0 <= trailing_newlines((run_upto(atoms, src, cfg, i)->Ok_0).out) <= cfg.max_blank_lines
            + 1,
        (run_upto(atoms, src, cfg, i)->Ok_0).out.len() > 0 ==> trailing_newlines(
            (run_upto(atoms, src, cfg, i)->Ok_0).out,
        ) < (run_upto(atoms, src, cfg, i)->Ok_0).out.len(),
    decreases i,
{
    let cap = cfg.max_blank_lines as int;
    if i == 0 {
    } else {
        assert(run_upto(atoms, src, cfg, i - 1) is Ok);
        lemma_blank_bound_upto(atoms, src, cfg, i - 1);
        let st = run_upto(atoms, src, cfg, i - 1)->Ok_0;
        let stn = run_upto(atoms, src, cfg, i)->Ok_0;
        let a = atoms[i - 1];
        assert(text_newline_free(atom_text(a, src)));
        lemma_trailing_newlines_le_len(st.out);
        match a {
            AtomV::Leaf(ls, le) => {
                lemma_emit_text_bound(st, src.subrange(ls as int, le as int), cfg);
            },
            AtomV::Dir(d) => {
                match d {
                    DirectiveV::InsertSpace => {
                        if stn.out != st.out {
                            assert(text_newline_free(seq![' ']));
                            lemma_no_long_run_append_clean(st.out, seq![' '], cap);
                            lemma_trailing_concat(st.out, seq![' ']);
                        }
                    },
                    DirectiveV::InsertHardline => {
                        if stn.out != st.out {
                            assert(stn.out == st.out + seq!['\n']);
                            assert(seq!['\n'] =~= newlines(1));
                            lemma_no_long_run_append_nl(st.out, 1, cap);
                        }
                    },
                    DirectiveV::InsertBlankLines(m) => {
                        if stn.out != st.out {
                            let want = (if m < cfg.max_blank_lines {
                                m
                            } else {
                                cfg.max_blank_lines
                            }) + 1;
                            let k = want - trailing_newlines(st.out);
                            assert(stn.out == st.out + newlines(k as nat));
                            lemma_no_long_run_append_nl(st.out, k as nat, cap);
                        }
                    },
                    DirectiveV::Literal(txt) => {
                        lemma_emit_text_bound(st, txt, cfg);
                    },
                    _ => {},
                }
            },
        }
    }
}

/// Emitting newline-free text keeps the bound and resets the trailing run.
pub proof fn lemma_emit_text_bound(st: RState, t: Seq<char>, cfg: Config)
    requires
        text_newline_free(t),
        no_long_nl_run(st.out, cfg.max_blank_lines as int),
        st.out.len() > 0 ==> trailing_newlines(st.out) < st.out.len(),
        0 <= trailing_newlines(st.out) <= cfg.max_blank_lines + 1,
    ensures
        no_long_nl_run(emit_text_spec(st, t, cfg).out, cfg.max_blank_lines as int),
        t.len() > 0 ==> trailing_newlines(emit_text_spec(st, t, cfg).out) == 0,
        t.len() == 0 ==> emit_text_spec(st, t, cfg) == st,
        emit_text_spec(st, t, cfg).out.len() > 0 ==> trailing_newlines(
            emit_text_spec(st, t, cfg).out,
        ) < emit_text_spec(st, t, cfg).out.len(),
{
    let cap = cfg.max_blank_lines as int;
    if t.len() > 0 {
        let pre = if trailing_newlines(st.out) > 0 {
            spaces(st.depth * (cfg.indent_width as nat))
        } else {
            Seq::<char>::empty()
        };
        assert(text_newline_free(pre));
        lemma_no_long_run_append_clean(st.out, pre, cap);
        lemma_no_long_run_append_clean(st.out + pre, t, cap);
        assert(emit_text_spec(st, t, cfg).out =~= (st.out + pre) + t);
        assert(t.last() != '\n');
        lemma_trailing_concat(st.out + pre, t);
    }
}

/// Blank-line bound: over streams whose token and literal texts hold no
/// newline, the rendered output never exceeds the configured maximum of
/// consecutive blank lines, however many directives request more at any
/// boundary.
pub proof fn lemma_render_blank_bound(atoms: Seq<AtomV>, src: Seq<char>, cfg: Config)
    requires
        atoms_newline_free(atoms, src),
    ensures
        (render_run(atoms, src, cfg) matches Ok(out) ==> no_long_nl_run(
            out,
            cfg.max_blank_lines as int,
        )),
{
    if render_run(atoms, src, cfg) is Ok {
        lemma_blank_bound_upto(atoms, src, cfg, atoms.len() as int);
    }
}

} // verus!
