//! Reading the interchange text that `Graph::encode` writes.

use vstd::prelude::*;
use crate::text::{
    chars_of, chars_eq, unhex, unhex_spec, UnhexFailure, field_encoding_message, push_slice,
    utf8_error_text,
    string_of, hex_of, hex_of_bytes, hex_digit, hex_value, is_hex_digit, unhex_bytes,
};
use crate::graph::{
    Graph, GraphView, Edge, EdgeView, ModuleSet, EdgeSet, first_where, lemma_first_where,
    texts_sorted, edges_sorted, validate_spec, owned, encode_spec, module_records, edge_records,
    edge_record,
};

verus! {

// ---------------------------------------------------------------------------
// Lines and fields
// ---------------------------------------------------------------------------

/// The predicate "is the character `c`".
pub open spec fn is_char(c: char) -> spec_fn(char) -> bool {
    |x: char| x == c
}

/// `first_where` gives -1 or an index of the sequence.
pub proof fn lemma_first_where_range<A>(s: Seq<A>, p: spec_fn(A) -> bool)
    ensures
        -1 <= first_where(s, p) < s.len(),
        first_where(s, p) >= 0 ==> p(s[first_where(s, p)]),
    decreases s.len(),
{
    if s.len() > 0 {
        lemma_first_where_range(s.drop_first(), p);
    }
}

/// A line without the carriage return of a CRLF line ending.
pub open spec fn strip_cr(l: Seq<char>) -> Seq<char> {
    if l.len() > 0 && l.last() == '\r' {
        l.drop_last()
    } else {
        l
    }
}

/// The lines of a text as `str::lines` gives them: split after each `\n`,
/// each line without its `\n` or `\r\n`; a final line without `\n` is kept
/// as it is, and a text ending in `\n` has no empty last line.
pub open spec fn text_lines(t: Seq<char>) -> Seq<Seq<char>>
    decreases t.len(),
{
    if t.len() == 0 {
        seq![]
    } else {
        let i = first_where(t, is_char('\n'));
        proof {
            lemma_first_where_range(t, is_char('\n'));
        }
        if i < 0 {
            seq![t]
        } else {
            seq![strip_cr(t.take(i))] + text_lines(t.skip(i + 1))
        }
    }
}

/// The tab-separated fields of a line, as `str::split('\t')` gives them.
pub open spec fn split_fields(l: Seq<char>) -> Seq<Seq<char>>
    decreases l.len(),
{
    let i = first_where(l, is_char('\t'));
    proof {
        lemma_first_where_range(l, is_char('\t'));
    }
    if i < 0 {
        seq![l]
    } else {
        seq![l.take(i)] + split_fields(l.skip(i + 1))
    }
}

/// The first index at or after `from` that holds `c`, or the length.
pub(crate) fn find_char(v: &[char], from: usize, c: char) -> (i: usize)
    requires
        from <= v.len(),
    ensures
        from <= i <= v.len(),
        first_where(v@.skip(from as int), is_char(c)) == (if i < v.len() {
            i - from
        } else {
            -1
        }),
{
    let mut i = from;
    while i < v.len() && v[i] != c
        invariant
            from <= i <= v.len(),
            forall|k: int| from <= k < i ==> v@[k] != c,
        decreases v.len() - i,
    {
        i = i + 1;
    }
    proof {
        let s = v@.skip(from as int);
        assert forall|k: int| 0 <= k < i - from implies !is_char(c)(#[trigger] s[k]) by {
            assert(s[k] == v@[k + from]);
        }
        if i < v.len() {
            assert(s[i - from] == v@[i as int]);
        }
        lemma_first_where(s, is_char(c), i - from);
    }
    i
}

/// The characters `v[a..b]`.
pub(crate) fn copy_range(v: &[char], a: usize, b: usize) -> (r: Vec<char>)
    requires
        a <= b <= v.len(),
    ensures
        r@ == v@.subrange(a as int, b as int),
{
    let mut r: Vec<char> = Vec::new();
    let mut k = a;
    while k < b
        invariant
            a <= k <= b <= v.len(),
            r@ == v@.subrange(a as int, k as int),
        decreases b - k,
    {
        r.push(v[k]);
        assert(v@.subrange(a as int, k + 1) == v@.subrange(a as int, k as int).push(v@[k as int]));
        k = k + 1;
    }
    r
}

/// The views of a vector of character vectors.
pub open spec fn char_rows(v: Seq<Vec<char>>) -> Seq<Seq<char>> {
    v.map_values(|r: Vec<char>| r@)
}

/// Splits a line at its tabs (see `split_fields`).
fn split_tabs(l: &[char]) -> (r: Vec<Vec<char>>)
    ensures
        char_rows(r@) == split_fields(l@),
{
    let mut out: Vec<Vec<char>> = Vec::new();
    let mut pos: usize = 0;
    let mut done = false;
    assert(l@.skip(0) == l@);
    assert(char_rows(out@) == Seq::<Seq<char>>::empty());
    assert(char_rows(out@) + split_fields(l@) == split_fields(l@));
    while !done
        invariant
            pos <= l.len(),
            !done ==> char_rows(out@) + split_fields(l@.skip(pos as int)) == split_fields(l@),
            done ==> char_rows(out@) == split_fields(l@),
        decreases l.len() + 1 - pos - (if done { 1int } else { 0int }),
    {
        let ghost rest = l@.skip(pos as int);
        let t = find_char(l, pos, '\t');
        if t == l.len() {
            let field = copy_range(l, pos, t);
            proof {
                assert(field@ == rest);
                assert(split_fields(rest) == seq![rest]);
                assert(char_rows(out@.push(field)) == char_rows(out@).push(field@));
            }
            out.push(field);
            done = true;
        } else {
            let field = copy_range(l, pos, t);
            proof {
                assert(field@ == rest.take(t - pos));
                assert(rest.skip(t - pos + 1) == l@.skip(t + 1));
                assert(split_fields(rest) == seq![rest.take(t - pos)] + split_fields(
                    l@.skip(t + 1),
                ));
                assert(char_rows(out@.push(field)) == char_rows(out@).push(field@));
                assert(char_rows(out@).push(field@) + split_fields(l@.skip(t + 1)) == char_rows(
                    out@,
                ) + split_fields(rest));
            }
            out.push(field);
            pos = t + 1;
        }
    }
    out
}

// ---------------------------------------------------------------------------
// Records
// ---------------------------------------------------------------------------

/// What has been read so far.
pub struct DecodeState {
    pub crate_name: Seq<char>,
    pub modules: Set<Seq<char>>,
    pub edges: Set<EdgeView>,
    pub has_crate: bool,
    pub ended: bool,
}

/// Why reading failed: a failure with this message.
pub enum DecodeFailure {
    Message(Seq<char>),
}

/// Before the first record.
pub open spec fn initial_state() -> DecodeState {
    DecodeState {
        crate_name: Seq::empty(),
        modules: Set::empty(),
        edges: Set::empty(),
        has_crate: false,
        ended: false,
    }
}

/// Decoding one hexadecimal field, with the failure that reading reports.
pub open spec fn field_value(t: Seq<char>) -> Result<Seq<char>, DecodeFailure> {
    match unhex_spec(t) {
        Ok(v) => Ok(v),
        Err(UnhexFailure::Encoding) => Err(DecodeFailure::Message(field_encoding_message())),
        Err(UnhexFailure::Utf8) => Err(DecodeFailure::Message(utf8_error_text(unhex_bytes(t)))),
    }
}

/// Decoding the five fields of an edge record, the first failure first.
pub open spec fn edge_value(f: Seq<Seq<char>>) -> Result<EdgeView, DecodeFailure> {
    match field_value(f[1]) {
        Err(e) => Err(e),
        Ok(from) => match field_value(f[2]) {
            Err(e) => Err(e),
            Ok(to) => match field_value(f[3]) {
                Err(e) => Err(e),
                Ok(symbol) => match field_value(f[4]) {
                    Err(e) => Err(e),
                    Ok(location) => match field_value(f[5]) {
                        Err(e) => Err(e),
                        Ok(kind) => Ok(EdgeView { from, to, symbol, location, kind }),
                    },
                },
            },
        },
    }
}

/// Reading one line after the version line.
pub open spec fn decode_record(st: DecodeState, line: Seq<char>) -> Result<
    DecodeState,
    DecodeFailure,
> {
    let f = split_fields(line);
    if st.ended {
        Err(DecodeFailure::Message("Data after graph terminator"@))
    } else if f.len() == 2 && f[0] == "C"@ && !st.has_crate {
        match field_value(f[1]) {
            Err(e) => Err(e),
            Ok(name) => Ok(DecodeState { crate_name: name, has_crate: true, ..st }),
        }
    } else if f.len() == 2 && f[0] == "M"@ {
        match field_value(f[1]) {
            Err(e) => Err(e),
            Ok(name) => if st.modules.contains(name) {
                Err(DecodeFailure::Message("Duplicate module in graph"@))
            } else {
                Ok(DecodeState { modules: st.modules.insert(name), ..st })
            },
        }
    } else if f.len() == 6 && f[0] == "E"@ {
        match edge_value(f) {
            Err(e) => Err(e),
            Ok(edge) => if st.edges.contains(edge) {
                Err(DecodeFailure::Message("Duplicate edge in graph"@))
            } else {
                Ok(DecodeState { edges: st.edges.insert(edge), ..st })
            },
        }
    } else if f.len() == 1 && f[0] == "END"@ {
        Ok(DecodeState { ended: true, ..st })
    } else {
        Err(DecodeFailure::Message("Invalid graph record: "@ + line))
    }
}

/// Reading the given lines in order, stopping at the first failure.
pub open spec fn decode_lines(st: DecodeState, ls: Seq<Seq<char>>) -> Result<
    DecodeState,
    DecodeFailure,
>
    decreases ls.len(),
{
    if ls.len() == 0 {
        Ok(st)
    } else {
        match decode_record(st, ls[0]) {
            Err(e) => Err(e),
            Ok(next) => decode_lines(next, ls.drop_first()),
        }
    }
}

/// What reading a text gives before the final well-formedness check: the
/// version line `layer-graph-v1`, then records, which must include the crate
/// record and end with the `END` terminator.
pub open spec fn decode_state(t: Seq<char>) -> Result<DecodeState, DecodeFailure> {
    let ls = text_lines(t);
    if ls.len() == 0 || ls[0] != "layer-graph-v1"@ {
        Err(DecodeFailure::Message("Unsupported or missing graph schema"@))
    } else {
        match decode_lines(initial_state(), ls.drop_first()) {
            Err(e) => Err(e),
            Ok(st) => if !st.has_crate || !st.ended {
                Err(DecodeFailure::Message("Incomplete graph"@))
            } else {
                Ok(st)
            },
        }
    }
}

/// The graph whose contents are those read: the crate name, and the modules
/// and edges in order.
pub open spec fn holds_state(g: GraphView, st: DecodeState) -> bool {
    &&& g.crate_name == st.crate_name
    &&& g.modules.to_set() == st.modules
    &&& g.edges.to_set() == st.edges
    &&& texts_sorted(g.modules)
    &&& edges_sorted(g.edges)
}

/// What `Graph::decode` returns for a text.
pub open spec fn decode_matches(r: Result<Graph, String>, t: Seq<char>) -> bool {
    match (r, decode_state(t)) {
        (Ok(g), Ok(st)) => holds_state(g@, st) && validate_spec(g@) is Ok,
        (Err(m), Ok(st)) => exists|g: GraphView| holds_state(g, st) && validate_spec(g) == Err::<(), Seq<char>>(m@),
        (Err(m), Err(DecodeFailure::Message(msg))) => m@ == msg,
        _ => false,
    }
}


// ---------------------------------------------------------------------------
// Reading
// ---------------------------------------------------------------------------

/// The reading state that a partly read graph stands for.
pub open spec fn state_of(g: GraphView, has_crate: bool, ended: bool) -> DecodeState {
    DecodeState {
        crate_name: g.crate_name,
        modules: g.modules.to_set(),
        edges: g.edges.to_set(),
        has_crate,
        ended,
    }
}

/// Whether a failure message is the one a reading failure describes.
pub open spec fn failure_matches(m: String, e: DecodeFailure) -> bool {
    match e {
        DecodeFailure::Message(x) => m@ == x,
    }
}

/// The next line of `t` from `pos`, and where the following line starts.
pub(crate) fn read_line(t: &[char], pos: usize) -> (r: (Vec<char>, usize))
    requires
        pos < t.len(),
    ensures
        pos < r.1 <= t.len(),
        text_lines(t@.skip(pos as int)) == seq![r.0@] + text_lines(t@.skip(r.1 as int)),
{
    let ghost s = t@.skip(pos as int);
    let i = find_char(t, pos, '\n');
    if i == t.len() {
        let line = copy_range(t, pos, i);
        proof {
            assert(line@ == s);
            assert(t@.skip(t.len() as int) == Seq::<char>::empty());
            assert(text_lines(Seq::<char>::empty()) == Seq::<Seq<char>>::empty());
            assert(text_lines(s) == seq![s]);
        }
        (line, i)
    } else {
        let mut line = copy_range(t, pos, i);
        proof {
            assert(line@ == s.take(i - pos));
            assert(s.skip(i - pos + 1) == t@.skip(i + 1));
        }
        if line.len() > 0 && line[line.len() - 1] == '\r' {
            line.pop();
        }
        (line, i + 1)
    }
}

/// Applies one record to the graph read so far (see `decode_record`).
fn apply_record(g: &mut Graph, has_crate: &mut bool, ended: &mut bool, line: &[char]) -> (r: Result<
    (),
    String,
>)
    ensures
        match (r, decode_record(state_of(old(g)@, *old(has_crate), *old(ended)), line@)) {
            (Ok(()), Ok(st)) => state_of(final(g)@, *final(has_crate), *final(ended)) == st,
            (Err(m), Err(e)) => failure_matches(m, e),
            _ => false,
        },
{
    let f = split_tabs(line);
    let ghost fv = split_fields(line@);
    assert(fv.len() == f@.len());
    assert(forall|k: int| 0 <= k < f@.len() ==> #[trigger] fv[k] == f@[k]@);
    if *ended {
        return Err(owned("Data after graph terminator"));
    }
    if f.len() == 2 && chars_eq(&f[0], &chars_of("C")) && !*has_crate {
        match unhex(&f[1]) {
            Ok(name) => {
                g.crate_name = name;
                *has_crate = true;
                return Ok(());
            },
            Err(m) => {
                return Err(m);
            },
        }
    }
    if f.len() == 2 && chars_eq(&f[0], &chars_of("M")) {
        match unhex(&f[1]) {
            Ok(name) => {
                let added = g.modules.insert(name);
                if !added {
                    return Err(owned("Duplicate module in graph"));
                }
                return Ok(());
            },
            Err(m) => {
                return Err(m);
            },
        }
    }
    if f.len() == 6 && chars_eq(&f[0], &chars_of("E")) {
        let from = match unhex(&f[1]) {
            Ok(v) => v,
            Err(m) => {
                return Err(m);
            },
        };
        let to = match unhex(&f[2]) {
            Ok(v) => v,
            Err(m) => {
                return Err(m);
            },
        };
        let symbol = match unhex(&f[3]) {
            Ok(v) => v,
            Err(m) => {
                return Err(m);
            },
        };
        let location = match unhex(&f[4]) {
            Ok(v) => v,
            Err(m) => {
                return Err(m);
            },
        };
        let kind = match unhex(&f[5]) {
            Ok(v) => v,
            Err(m) => {
                return Err(m);
            },
        };
        let edge = Edge { from, to, symbol, location, kind };
        let added = g.edges.insert(edge);
        if !added {
            return Err(owned("Duplicate edge in graph"));
        }
        return Ok(());
    }
    if f.len() == 1 && chars_eq(&f[0], &chars_of("END")) {
        *ended = true;
        return Ok(());
    }
    let mut out = chars_of("Invalid graph record: ");
    push_slice(&mut out, line);
    Err(string_of(&out))
}

impl Graph {
    /// Reads the interchange text (see `decode_state`); the graph read must
    /// also be well formed (see `validate_spec`).
    pub fn decode(text: &str) -> (r: Result<Graph, String>)
        ensures
            decode_matches(r, text@),
    {
        let t = chars_of(text);
        let n = t.len();
        if n == 0 {
            assert(text_lines(t@) == Seq::<Seq<char>>::empty());
            return Err(owned("Unsupported or missing graph schema"));
        }
        assert(t@.skip(0) == t@);
        let (first, mut pos) = read_line(&t, 0);
        if !chars_eq(&first, &chars_of("layer-graph-v1")) {
            return Err(owned("Unsupported or missing graph schema"));
        }
        let ghost all = text_lines(t@).drop_first();
        assert(all == text_lines(t@.skip(pos as int)));
        let mut graph = Graph::default();
        let mut has_crate = false;
        let mut ended = false;
        assert(graph@.modules.to_set() == Set::<Seq<char>>::empty());
        assert(graph@.edges.to_set() == Set::<EdgeView>::empty());
        assert(state_of(graph@, has_crate, ended) == initial_state());
        while pos < n
            invariant
                n == t@.len(),
                pos <= n,
                t@ == text@,
                text_lines(t@).len() > 0,
                text_lines(t@)[0] == "layer-graph-v1"@,
                all == text_lines(t@).drop_first(),
                decode_lines(initial_state(), all) == decode_lines(
                    state_of(graph@, has_crate, ended),
                    text_lines(t@.skip(pos as int)),
                ),
            decreases n - pos,
        {
            let (line, next) = read_line(&t, pos);
            let ghost st = state_of(graph@, has_crate, ended);
            let ghost rest = text_lines(t@.skip(next as int));
            assert((seq![line@] + rest)[0] == line@);
            assert((seq![line@] + rest).drop_first() == rest);
            match apply_record(&mut graph, &mut has_crate, &mut ended, &line) {
                Ok(()) => {},
                Err(m) => {
                    assert(decode_lines(st, seq![line@] + rest) == decode_record(st, line@));
                    return Err(m);
                },
            }
            pos = next;
        }
        assert(t@.skip(n as int) == Seq::<char>::empty());
        assert(text_lines(Seq::<char>::empty()) == Seq::<Seq<char>>::empty());
        if !has_crate || !ended {
            return Err(owned("Incomplete graph"));
        }
        // The lengths carry the sets' order into the proof.
        let _ = graph.modules.len();
        let _ = graph.edges.len();
        match graph.validate() {
            Err(m) => {
                assert(holds_state(graph@, state_of(graph@, has_crate, ended)));
                Err(m)
            },
            Ok(()) => Ok(graph),
        }
    }
}


// ---------------------------------------------------------------------------
// Reading back what was written
// ---------------------------------------------------------------------------

/// A line that `text_lines` returns unchanged: no `\n`, no final `\r`.
pub open spec fn plain_line(l: Seq<char>) -> bool {
    &&& forall|k: int| 0 <= k < l.len() ==> #[trigger] l[k] != '\n'
    &&& (l.len() == 0 || l.last() != '\r')
}

/// The lines, each followed by `\n`.
pub open spec fn joined_lines(ls: Seq<Seq<char>>) -> Seq<char>
    decreases ls.len(),
{
    if ls.len() == 0 {
        seq![]
    } else {
        ls[0] + seq!['\n'] + joined_lines(ls.drop_first())
    }
}

proof fn lemma_joined_append(a: Seq<Seq<char>>, b: Seq<Seq<char>>)
    ensures
        joined_lines(a + b) == joined_lines(a) + joined_lines(b),
    decreases a.len(),
{
    if a.len() == 0 {
        assert(a + b == b);
    } else {
        assert((a + b)[0] == a[0]);
        assert((a + b).drop_first() == a.drop_first() + b);
        lemma_joined_append(a.drop_first(), b);
    }
}

proof fn lemma_joined_one(l: Seq<char>)
    ensures
        joined_lines(seq![l]) == l + seq!['\n'],
{
    assert(seq![l].drop_first() == Seq::<Seq<char>>::empty());
    assert(joined_lines(Seq::<Seq<char>>::empty()) == Seq::<char>::empty());
    assert(l + seq!['\n'] + Seq::<char>::empty() == l + seq!['\n']);
}

proof fn lemma_text_lines_joined(ls: Seq<Seq<char>>)
    requires
        forall|i: int| 0 <= i < ls.len() ==> plain_line(#[trigger] ls[i]),
    ensures
        text_lines(joined_lines(ls)) == ls,
    decreases ls.len(),
{
    if ls.len() > 0 {
        let l = ls[0];
        let rest = joined_lines(ls.drop_first());
        let t = l + seq!['\n'] + rest;
        assert(plain_line(l));
        assert forall|k: int| 0 <= k < l.len() implies !is_char('\n')(#[trigger] t[k]) by {
            assert(t[k] == l[k]);
        }
        assert(t[l.len() as int] == '\n');
        lemma_first_where(t, is_char('\n'), l.len() as int);
        assert(t.take(l.len() as int) == l);
        assert(t.skip(l.len() as int + 1) == rest);
        assert forall|i: int| 0 <= i < ls.drop_first().len() implies plain_line(
            #[trigger] ls.drop_first()[i],
        ) by {
            assert(ls.drop_first()[i] == ls[i + 1]);
        }
        lemma_text_lines_joined(ls.drop_first());
        assert(ls == seq![l] + ls.drop_first());
    }
}

/// A field without tabs.
pub open spec fn tab_free(l: Seq<char>) -> bool {
    forall|k: int| 0 <= k < l.len() ==> #[trigger] l[k] != '\t'
}

proof fn lemma_split_single(a: Seq<char>)
    requires
        tab_free(a),
    ensures
        split_fields(a) == seq![a],
{
    assert forall|k: int| 0 <= k < a.len() implies !is_char('\t')(#[trigger] a[k]) by {}
    lemma_first_where(a, is_char('\t'), a.len() as int);
}

proof fn lemma_split_tab(a: Seq<char>, rest: Seq<char>)
    requires
        tab_free(a),
    ensures
        split_fields(a + seq!['\t'] + rest) == seq![a] + split_fields(rest),
{
    let t = a + seq!['\t'] + rest;
    assert forall|k: int| 0 <= k < a.len() implies !is_char('\t')(#[trigger] t[k]) by {
        assert(t[k] == a[k]);
    }
    assert(t[a.len() as int] == '\t');
    lemma_first_where(t, is_char('\t'), a.len() as int);
    assert(t.take(a.len() as int) == a);
    assert(t.skip(a.len() as int + 1) == rest);
}

proof fn lemma_hex_digit(d: nat)
    requires
        d < 16,
    ensures
        hex_value(hex_digit(d)) == d,
        is_hex_digit(hex_digit(d)),
{
}

proof fn lemma_hex_bytes(b: Seq<u8>)
    ensures
        hex_of_bytes(b).len() == 2 * b.len(),
        forall|k: int| 0 <= k < hex_of_bytes(b).len() ==> is_hex_digit(#[trigger] hex_of_bytes(b)[k]),
        unhex_bytes(hex_of_bytes(b)) == b,
    decreases b.len(),
{
    if b.len() > 0 {
        let x = b.last();
        let h = hex_of_bytes(b);
        let p = hex_of_bytes(b.drop_last());
        lemma_hex_bytes(b.drop_last());
        lemma_hex_digit((x / 16) as nat);
        lemma_hex_digit((x % 16) as nat);
        assert(h.subrange(0, h.len() - 2) == p);
        assert(h[h.len() - 2] == hex_digit((x / 16) as nat));
        assert(h[h.len() - 1] == hex_digit((x % 16) as nat));
        assert(b.drop_last().push(x) == b);
        assert forall|k: int| 0 <= k < h.len() implies is_hex_digit(#[trigger] h[k]) by {
            if k < p.len() {
                assert(h[k] == p[k]);
            }
        }
    }
}

/// Decoding a hexadecimal field gives back what was encoded.
pub proof fn lemma_unhex_hex(s: Seq<char>)
    ensures
        field_value(hex_of(s)) == Ok::<Seq<char>, DecodeFailure>(s),
        tab_free(hex_of(s)),
        plain_line(hex_of(s)),
{
    let b = vstd::utf8::encode_utf8(s);
    lemma_hex_bytes(b);
    vstd::utf8::encode_utf8_valid_utf8(s);
    vstd::utf8::encode_utf8_decode_utf8(s);
    let h = hex_of(s);
    assert(h.len() % 2 == 0);
    assert forall|k: int| 0 <= k < h.len() implies #[trigger] h[k] != '\t' && h[k] != '\n'
        && h[k] != '\r' by {
        assert(is_hex_digit(h[k]));
    }
}


/// The record line of a module, without its line ending.
pub open spec fn module_line(m: Seq<char>) -> Seq<char> {
    seq!['M', '\t'] + hex_of(m)
}

/// The record line of an edge, without its line ending.
pub open spec fn edge_line(e: EdgeView) -> Seq<char> {
    seq!['E', '\t'] + hex_of(e.from) + seq!['\t'] + hex_of(e.to) + seq!['\t'] + hex_of(e.symbol)
        + seq!['\t'] + hex_of(e.location) + seq!['\t'] + hex_of(e.kind)
}

/// The lines of a graph's interchange text.
pub open spec fn record_lines(g: GraphView) -> Seq<Seq<char>> {
    seq!["layer-graph-v1"@, seq!['C', '\t'] + hex_of(g.crate_name)] + g.modules.map_values(
        |m: Seq<char>| module_line(m),
    ) + g.edges.map_values(|e: EdgeView| edge_line(e)) + seq!["END"@]
}

proof fn lemma_module_records(ms: Seq<Seq<char>>)
    ensures
        module_records(ms) == joined_lines(ms.map_values(|m: Seq<char>| module_line(m))),
    decreases ms.len(),
{
    reveal_strlit("M\t");
    reveal_strlit("\n");
    if ms.len() > 0 {
        let f = |m: Seq<char>| module_line(m);
        lemma_module_records(ms.drop_last());
        assert(ms.map_values(f) == ms.drop_last().map_values(f).push(module_line(ms.last())));
        lemma_joined_append(ms.drop_last().map_values(f), seq![module_line(ms.last())]);
        lemma_joined_one(module_line(ms.last()));
        assert(ms.drop_last().map_values(f).push(module_line(ms.last())) == ms.drop_last().map_values(f) + seq![module_line(ms.last())]);
    } else {
        assert(ms.map_values(|m: Seq<char>| module_line(m)) == Seq::<Seq<char>>::empty());
    }
}

proof fn lemma_edge_records(es: Seq<EdgeView>)
    ensures
        edge_records(es) == joined_lines(es.map_values(|e: EdgeView| edge_line(e))),
    decreases es.len(),
{
    reveal_strlit("E\t");
    reveal_strlit("\t");
    reveal_strlit("\n");
    if es.len() > 0 {
        let f = |e: EdgeView| edge_line(e);
        lemma_edge_records(es.drop_last());
        assert(es.map_values(f) == es.drop_last().map_values(f).push(edge_line(es.last())));
        lemma_joined_append(es.drop_last().map_values(f), seq![edge_line(es.last())]);
        lemma_joined_one(edge_line(es.last()));
        assert(es.drop_last().map_values(f).push(edge_line(es.last())) == es.drop_last().map_values(f) + seq![edge_line(es.last())]);
        assert(edge_record(es.last()) == edge_line(es.last()) + seq!['\n']);
    } else {
        assert(es.map_values(|e: EdgeView| edge_line(e)) == Seq::<Seq<char>>::empty());
    }
}

proof fn lemma_encode_joined(g: GraphView)
    ensures
        encode_spec(g) == joined_lines(record_lines(g)),
{
    reveal_strlit("layer-graph-v1\nC\t");
    reveal_strlit("layer-graph-v1");
    reveal_strlit("\n");
    reveal_strlit("END\n");
    reveal_strlit("END");
    let head = seq!["layer-graph-v1"@, seq!['C', '\t'] + hex_of(g.crate_name)];
    let ml = g.modules.map_values(|m: Seq<char>| module_line(m));
    let el = g.edges.map_values(|e: EdgeView| edge_line(e));
    let tail = seq!["END"@];
    lemma_module_records(g.modules);
    lemma_edge_records(g.edges);
    lemma_joined_append(head + ml + el, tail);
    lemma_joined_append(head + ml, el);
    lemma_joined_append(head, ml);
    lemma_joined_append(seq![head[0]], seq![head[1]]);
    assert(head == seq![head[0]] + seq![head[1]]);
    lemma_joined_one(head[0]);
    lemma_joined_one(head[1]);
    lemma_joined_one("END"@);
    assert("layer-graph-v1\nC\t"@ == "layer-graph-v1"@ + seq!['\n'] + seq!['C', '\t']);
}

proof fn lemma_decode_append(st: DecodeState, a: Seq<Seq<char>>, b: Seq<Seq<char>>)
    ensures
        decode_lines(st, a + b) == match decode_lines(st, a) {
            Ok(next) => decode_lines(next, b),
            Err(e) => Err(e),
        },
    decreases a.len(),
{
    if a.len() == 0 {
        assert(a + b == b);
    } else {
        assert((a + b)[0] == a[0]);
        assert((a + b).drop_first() == a.drop_first() + b);
        match decode_record(st, a[0]) {
            Ok(next) => lemma_decode_append(next, a.drop_first(), b),
            Err(_) => {},
        }
    }
}

proof fn lemma_decode_one(st: DecodeState, l: Seq<char>)
    ensures
        decode_lines(st, seq![l]) == decode_record(st, l),
{
    assert(seq![l][0] == l);
    assert(seq![l].drop_first() == Seq::<Seq<char>>::empty());
    match decode_record(st, l) {
        Ok(next) => {
            assert(decode_lines(next, Seq::<Seq<char>>::empty()) == Ok::<DecodeState, DecodeFailure>(next));
        },
        Err(_) => {},
    }
}

proof fn lemma_module_step(prev: DecodeState, m: Seq<char>)
    requires
        !prev.ended,
        !prev.modules.contains(m),
    ensures
        decode_record(prev, module_line(m)) == Ok::<DecodeState, DecodeFailure>(
            DecodeState { modules: prev.modules.insert(m), ..prev },
        ),
{
    reveal_strlit("C");
    reveal_strlit("M");
    lemma_unhex_hex(m);
    lemma_split_single(hex_of(m));
    lemma_split_tab(seq!['M'], hex_of(m));
    assert(module_line(m) == seq!['M'] + seq!['\t'] + hex_of(m));
    let fs = split_fields(module_line(m));
    assert(fs == seq![seq!['M'], hex_of(m)]);
    assert(fs[0] != "C"@) by {
        assert(fs[0][0] != "C"@[0]);
    }
    assert(fs[0] == "M"@);
}

proof fn lemma_edge_step(prev: DecodeState, e: EdgeView)
    requires
        !prev.ended,
        !prev.edges.contains(e),
    ensures
        decode_record(prev, edge_line(e)) == Ok::<DecodeState, DecodeFailure>(
            DecodeState { edges: prev.edges.insert(e), ..prev },
        ),
{
    reveal_strlit("E");
    lemma_edge_fields(e);
    let fs = split_fields(edge_line(e));
    assert(fs[0] == "E"@);
}

proof fn lemma_decode_modules(st: DecodeState, ms: Seq<Seq<char>>, i: int)
    requires
        !st.ended,
        st.modules == Set::<Seq<char>>::empty(),
        texts_sorted(ms),
        0 <= i <= ms.len(),
    ensures
        decode_lines(st, ms.take(i).map_values(|m: Seq<char>| module_line(m))) == Ok::<
            DecodeState,
            DecodeFailure,
        >(DecodeState { modules: ms.take(i).to_set(), ..st }),
    decreases i,
{
    let f = |m: Seq<char>| module_line(m);
    if i == 0 {
        assert(ms.take(0).map_values(f) == Seq::<Seq<char>>::empty());
        assert(ms.take(0).to_set() == Set::<Seq<char>>::empty());
        assert(DecodeState { modules: ms.take(0).to_set(), ..st } == st);
    } else {
        let m = ms[i - 1];
        lemma_decode_modules(st, ms, i - 1);
        assert(ms.take(i).map_values(f) == ms.take(i - 1).map_values(f) + seq![module_line(m)]);
        lemma_decode_append(st, ms.take(i - 1).map_values(f), seq![module_line(m)]);
        let prev = DecodeState { modules: ms.take(i - 1).to_set(), ..st };
        lemma_decode_one(prev, module_line(m));
        assert(!prev.modules.contains(m)) by {
            if ms.take(i - 1).to_set().contains(m) {
                let k = choose|k: int| 0 <= k < i - 1 && #[trigger] ms.take(i - 1)[k] == m;
                assert(ms[k] == m);
                crate::text::lemma_text_lt_order(m, m, m);
            }
        }
        lemma_module_step(prev, m);
        assert(ms.take(i) == ms.take(i - 1).push(m));
        crate::graph::lemma_push_to_set(ms.take(i - 1), m);
    }
}

proof fn lemma_edge_fields(e: EdgeView)
    ensures
        split_fields(edge_line(e)) == seq![
            seq!['E'],
            hex_of(e.from),
            hex_of(e.to),
            hex_of(e.symbol),
            hex_of(e.location),
            hex_of(e.kind),
        ],
        edge_value(split_fields(edge_line(e))) == Ok::<EdgeView, DecodeFailure>(e),
{
    lemma_unhex_hex(e.from);
    lemma_unhex_hex(e.to);
    lemma_unhex_hex(e.symbol);
    lemma_unhex_hex(e.location);
    lemma_unhex_hex(e.kind);
    let t = seq!['\t'];
    let r5 = hex_of(e.kind);
    let r4 = hex_of(e.location) + t + r5;
    let r3 = hex_of(e.symbol) + t + r4;
    let r2 = hex_of(e.to) + t + r3;
    let r1 = hex_of(e.from) + t + r2;
    assert(edge_line(e) == seq!['E'] + t + r1);
    lemma_split_single(r5);
    lemma_split_tab(hex_of(e.location), r5);
    lemma_split_tab(hex_of(e.symbol), r4);
    lemma_split_tab(hex_of(e.to), r3);
    lemma_split_tab(hex_of(e.from), r2);
    lemma_split_tab(seq!['E'], r1);
    let fs = split_fields(edge_line(e));
    assert(fs == seq![
        seq!['E'],
        hex_of(e.from),
        hex_of(e.to),
        hex_of(e.symbol),
        hex_of(e.location),
        hex_of(e.kind),
    ]);
}

proof fn lemma_decode_edges(st: DecodeState, es: Seq<EdgeView>, i: int)
    requires
        !st.ended,
        st.edges == Set::<EdgeView>::empty(),
        crate::graph::edges_sorted(es),
        0 <= i <= es.len(),
    ensures
        decode_lines(st, es.take(i).map_values(|e: EdgeView| edge_line(e))) == Ok::<
            DecodeState,
            DecodeFailure,
        >(DecodeState { edges: es.take(i).to_set(), ..st }),
    decreases i,
{
    let f = |e: EdgeView| edge_line(e);
    if i == 0 {
        assert(es.take(0).map_values(f) == Seq::<Seq<char>>::empty());
        assert(es.take(0).to_set() == Set::<EdgeView>::empty());
        assert(DecodeState { edges: es.take(0).to_set(), ..st } == st);
    } else {
        let e = es[i - 1];
        lemma_decode_edges(st, es, i - 1);
        assert(es.take(i).map_values(f) == es.take(i - 1).map_values(f) + seq![edge_line(e)]);
        lemma_decode_append(st, es.take(i - 1).map_values(f), seq![edge_line(e)]);
        let prev = DecodeState { edges: es.take(i - 1).to_set(), ..st };
        lemma_decode_one(prev, edge_line(e));
        assert(!prev.edges.contains(e)) by {
            if es.take(i - 1).to_set().contains(e) {
                let k = choose|k: int| 0 <= k < i - 1 && #[trigger] es.take(i - 1)[k] == e;
                assert(es[k] == e);
                crate::graph::lemma_edge_lt_order(e, e, e);
            }
        }
        lemma_edge_step(prev, e);
        assert(es.take(i) == es.take(i - 1).push(e));
        crate::graph::lemma_push_to_set(es.take(i - 1), e);
    }
}

proof fn lemma_edge_line_plain(e: EdgeView)
    ensures
        plain_line(edge_line(e)),
{
    lemma_unhex_hex(e.from);
    lemma_unhex_hex(e.to);
    lemma_unhex_hex(e.symbol);
    lemma_unhex_hex(e.location);
    lemma_unhex_hex(e.kind);
    let l = edge_line(e);
    assert forall|k: int| 0 <= k < l.len() implies #[trigger] l[k] != '\n' by {
        let a = 2 + hex_of(e.from).len();
        let b = a + 1 + hex_of(e.to).len();
        let c = b + 1 + hex_of(e.symbol).len();
        let d = c + 1 + hex_of(e.location).len();
        if 2 <= k < a {
            assert(l[k] == hex_of(e.from)[k - 2]);
        } else if a < k < b {
            assert(l[k] == hex_of(e.to)[k - a - 1]);
        } else if b < k < c {
            assert(l[k] == hex_of(e.symbol)[k - b - 1]);
        } else if c < k < d {
            assert(l[k] == hex_of(e.location)[k - c - 1]);
        } else if d < k {
            assert(l[k] == hex_of(e.kind)[k - d - 1]);
        }
    }
    if hex_of(e.kind).len() > 0 {
        assert(l.last() == hex_of(e.kind).last());
    }
}

proof fn lemma_field_line_plain(tag: char, v: Seq<char>)
    requires
        tag != '\n',
    ensures
        plain_line(seq![tag, '\t'] + hex_of(v)),
{
    lemma_unhex_hex(v);
    let l = seq![tag, '\t'] + hex_of(v);
    assert forall|k: int| 0 <= k < l.len() implies #[trigger] l[k] != '\n' by {
        if k >= 2 {
            assert(l[k] == hex_of(v)[k - 2]);
        }
    }
    if hex_of(v).len() > 0 {
        assert(l.last() == hex_of(v).last());
    }
}

proof fn lemma_record_lines_plain(g: GraphView)
    ensures
        forall|i: int| 0 <= i < record_lines(g).len() ==> plain_line(#[trigger] record_lines(g)[i]),
{
    reveal_strlit("layer-graph-v1");
    reveal_strlit("END");
    let ls = record_lines(g);
    let nm = g.modules.len() as int;
    assert forall|i: int| 0 <= i < ls.len() implies plain_line(#[trigger] ls[i]) by {
        if 2 <= i < 2 + nm {
            let m = g.modules[i - 2];
            assert(ls[i] == module_line(m));
            lemma_field_line_plain('M', m);
        } else if 2 + nm <= i < ls.len() - 1 {
            let e = g.edges[i - 2 - nm];
            assert(ls[i] == edge_line(e));
            lemma_edge_line_plain(e);
        } else if i == 1 {
            lemma_field_line_plain('C', g.crate_name);
        }
    }
}

/// Reading the interchange text of a graph gives back its contents.
pub proof fn lemma_decode_encode_state(g: GraphView)
    requires
        texts_sorted(g.modules),
        edges_sorted(g.edges),
    ensures
        decode_state(encode_spec(g)) == Ok::<DecodeState, DecodeFailure>(state_of(g, true, true)),
{
    reveal_strlit("layer-graph-v1");
    reveal_strlit("C");
    reveal_strlit("END");
    let ls = record_lines(g);
    lemma_encode_joined(g);
    lemma_record_lines_plain(g);
    lemma_text_lines_joined(ls);
    let text = encode_spec(g);
    assert(text_lines(text) == ls);
    let c_line = seq!['C', '\t'] + hex_of(g.crate_name);
    let ml = g.modules.map_values(|m: Seq<char>| module_line(m));
    let el = g.edges.map_values(|e: EdgeView| edge_line(e));
    assert(ls.drop_first() == seq![c_line] + ml + el + seq!["END"@]);
    // The crate record.
    lemma_unhex_hex(g.crate_name);
    lemma_split_single(hex_of(g.crate_name));
    lemma_split_tab(seq!['C'], hex_of(g.crate_name));
    assert(c_line == seq!['C'] + seq!['\t'] + hex_of(g.crate_name));
    let s0 = initial_state();
    let s1 = DecodeState { crate_name: g.crate_name, has_crate: true, ..s0 };
    lemma_decode_one(s0, c_line);
    assert(split_fields(c_line) == seq![seq!['C'], hex_of(g.crate_name)]);
    assert(split_fields(c_line)[0] == "C"@);
    assert(decode_record(s0, c_line) == Ok::<DecodeState, DecodeFailure>(s1));
    // The module records.
    lemma_decode_modules(s1, g.modules, g.modules.len() as int);
    assert(g.modules.take(g.modules.len() as int) == g.modules);
    let s2 = DecodeState { modules: g.modules.to_set(), ..s1 };
    // The edge records.
    lemma_decode_edges(s2, g.edges, g.edges.len() as int);
    assert(g.edges.take(g.edges.len() as int) == g.edges);
    let s3 = DecodeState { edges: g.edges.to_set(), ..s2 };
    // The terminator.
    lemma_split_single("END"@);
    lemma_decode_one(s3, "END"@);
    let s4 = DecodeState { ended: true, ..s3 };
    assert(decode_record(s3, "END"@) == Ok::<DecodeState, DecodeFailure>(s4));
    lemma_decode_append(s0, seq![c_line], ml);
    lemma_decode_append(s0, seq![c_line] + ml, el);
    lemma_decode_append(s0, seq![c_line] + ml + el, seq!["END"@]);
    assert(s4 == state_of(g, true, true));
}

/// Writing a well-formed graph and reading the text back gives the same
/// graph: `Graph::decode(&g.encode())` is `Ok` of a graph equal to `g`.
pub proof fn lemma_wire_roundtrip(g: GraphView, r: Result<Graph, String>)
    requires
        texts_sorted(g.modules),
        edges_sorted(g.edges),
        validate_spec(g) is Ok,
        decode_matches(r, encode_spec(g)),
    ensures
        r matches Ok(back) && back@ == g,
{
    lemma_decode_encode_state(g);
    let st = state_of(g, true, true);
    match r {
        Ok(back) => {
            crate::graph::lemma_sorted_texts_unique(back@.modules, g.modules);
            crate::graph::lemma_sorted_edges_unique(back@.edges, g.edges);
        },
        Err(m) => {
            let w = choose|w: GraphView| holds_state(w, st) && validate_spec(w) == Err::<(), Seq<char>>(m@);
            crate::graph::lemma_sorted_texts_unique(w.modules, g.modules);
            crate::graph::lemma_sorted_edges_unique(w.edges, g.edges);
            assert(w == g);
        },
    }
}

// ---------------------------------------------------------------------------
// Cut-short texts
// ---------------------------------------------------------------------------

proof fn lemma_text_lines_cons(l: Seq<char>, rest: Seq<char>)
    requires
        plain_line(l),
    ensures
        text_lines(l + seq!['\n'] + rest) == seq![l] + text_lines(rest),
{
    let t = l + seq!['\n'] + rest;
    assert forall|k: int| 0 <= k < l.len() implies !is_char('\n')(#[trigger] t[k]) by {
        assert(t[k] == l[k]);
    }
    assert(t[l.len() as int] == '\n');
    lemma_first_where(t, is_char('\n'), l.len() as int);
    assert(t.take(l.len() as int) == l);
    assert(t.skip(l.len() as int + 1) == rest);
}

proof fn lemma_text_lines_last(q: Seq<char>)
    requires
        forall|k: int| 0 <= k < q.len() ==> #[trigger] q[k] != '\n',
    ensures
        text_lines(q) == (if q.len() == 0 {
            Seq::<Seq<char>>::empty()
        } else {
            seq![q]
        }),
{
    if q.len() > 0 {
        assert forall|k: int| 0 <= k < q.len() implies !is_char('\n')(#[trigger] q[k]) by {}
        lemma_first_where(q, is_char('\n'), q.len() as int);
    }
}

/// The lines of the first `n` characters of joined lines: the first `k`
/// lines whole, then the first `j` characters of the next line when `j` is
/// not zero.
proof fn lemma_prefix_lines(ls: Seq<Seq<char>>, n: int) -> (kj: (int, int))
    requires
        forall|i: int| 0 <= i < ls.len() ==> plain_line(#[trigger] ls[i]),
        0 <= n <= joined_lines(ls).len(),
    ensures
        0 <= kj.0 <= ls.len(),
        kj.1 == 0 || (kj.0 < ls.len() && 0 < kj.1 <= ls[kj.0].len()),
        n == joined_lines(ls.take(kj.0)).len() + kj.1,
        text_lines(joined_lines(ls).take(n)) == ls.take(kj.0) + (if kj.1 == 0 {
            Seq::<Seq<char>>::empty()
        } else {
            seq![ls[kj.0].take(kj.1)]
        }),
    decreases ls.len(),
{
    assert(ls.take(0) == Seq::<Seq<char>>::empty());
    assert(joined_lines(Seq::<Seq<char>>::empty()) == Seq::<char>::empty());
    if ls.len() == 0 {
        assert(joined_lines(ls).take(n) == Seq::<char>::empty());
        (0, 0)
    } else {
        let l = ls[0];
        let rest = ls.drop_first();
        let t = joined_lines(ls);
        assert(t == l + seq!['\n'] + joined_lines(rest));
        assert(plain_line(l));
        if n <= l.len() {
            let q = t.take(n);
            assert(q == l.take(n));
            lemma_text_lines_last(q);
            if n == 0 {
                (0, 0)
            } else {
                assert(ls.take(0) + seq![ls[0].take(n)] == seq![q]);
                (0, n)
            }
        } else {
            assert forall|i: int| 0 <= i < rest.len() implies plain_line(#[trigger] rest[i]) by {
                assert(rest[i] == ls[i + 1]);
            }
            let m = n - l.len() - 1;
            let (k, j) = lemma_prefix_lines(rest, m);
            assert(t.take(n) == l + seq!['\n'] + joined_lines(rest).take(m));
            lemma_text_lines_cons(l, joined_lines(rest).take(m));
            assert(ls.take(k + 1) == seq![l] + rest.take(k));
            assert(joined_lines(ls.take(k + 1)) == l + seq!['\n'] + joined_lines(rest.take(k))) by {
                assert(ls.take(k + 1)[0] == l);
                assert(ls.take(k + 1).drop_first() == rest.take(k));
            }
            if j > 0 {
                assert(rest[k] == ls[k + 1]);
            }
            (k + 1, j)
        }
    }
}

proof fn lemma_split_fields_single(l: Seq<char>)
    ensures
        split_fields(l).len() >= 1,
        split_fields(l).len() == 1 ==> split_fields(l)[0] == l,
    decreases l.len(),
{
    let i = first_where(l, is_char('\t'));
    lemma_first_where_range(l, is_char('\t'));
    if i >= 0 {
        lemma_split_fields_single(l.skip(i + 1));
    }
}

/// Reading lines none of which is the terminator never ends the graph.
proof fn lemma_no_terminator(st: DecodeState, ls: Seq<Seq<char>>)
    requires
        !st.ended,
        forall|i: int| 0 <= i < ls.len() ==> #[trigger] ls[i] != "END"@,
    ensures
        decode_lines(st, ls) matches Ok(end) ==> !end.ended,
    decreases ls.len(),
{
    if ls.len() > 0 {
        lemma_split_fields_single(ls[0]);
        match decode_record(st, ls[0]) {
            Ok(next) => {
                assert(!next.ended);
                assert forall|i: int| 0 <= i < ls.drop_first().len() implies #[trigger] ls.drop_first()[i]
                    != "END"@ by {
                    assert(ls.drop_first()[i] == ls[i + 1]);
                }
                lemma_no_terminator(next, ls.drop_first());
            },
            Err(_) => {},
        }
    }
}

/// No record line before the terminator starts with `END`.
proof fn lemma_records_before_end(g: GraphView, i: int)
    requires
        0 <= i < record_lines(g).len() - 1,
    ensures
        !crate::text::has_prefix(record_lines(g)[i], "END"@),
{
    reveal_strlit("layer-graph-v1");
    reveal_strlit("END");
    let ls = record_lines(g);
    let nm = g.modules.len() as int;
    let l = ls[i];
    if crate::text::has_prefix(l, "END"@) {
        assert(l.take(3) == "END"@);
        assert(l.take(3)[0] == l[0] && l.take(3)[1] == l[1]);
        assert("END"@[0] == 'E' && "END"@[1] == 'N');
        if i == 0 {
            assert(l[0] == 'l');
        } else if i == 1 {
            assert(l[0] == 'C');
        } else if i < 2 + nm {
            assert(l == module_line(g.modules[i - 2]));
            assert(l[0] == 'M');
        } else {
            assert(l == edge_line(g.edges[i - 2 - nm]));
            assert(l[1] == '\t');
        }
    }
}

/// Text cut short before the end of its terminator line is refused: reading
/// the first `n` characters of a graph's interchange text fails whenever
/// they stop short of the `END` line.
pub proof fn lemma_truncated_text_refused(g: GraphView, n: int, r: Result<Graph, String>)
    requires
        texts_sorted(g.modules),
        edges_sorted(g.edges),
        0 <= n < encode_spec(g).len() - 1,
        decode_matches(r, encode_spec(g).take(n)),
    ensures
        r is Err,
{
    reveal_strlit("END");
    let ls = record_lines(g);
    lemma_encode_joined(g);
    lemma_record_lines_plain(g);
    let last = ls.len() - 1;
    assert(ls[last] == "END"@);
    let (k, j) = lemma_prefix_lines(ls, n);
    let lines = text_lines(encode_spec(g).take(n));
    assert(joined_lines(ls) == joined_lines(ls.take(last)) + joined_lines(seq![ls[last]])) by {
        assert(ls == ls.take(last) + seq![ls[last]]);
        lemma_joined_append(ls.take(last), seq![ls[last]]);
    }
    lemma_joined_one(ls[last]);
    if k == ls.len() {
        assert(ls.take(k) == ls);
    }
    if k == last && j == 3 {
        assert(false);
    }
    assert forall|i: int| 0 <= i < lines.len() implies #[trigger] lines[i] != "END"@ by {
        if i < k {
            assert(lines[i] == ls[i]);
            lemma_records_before_end(g, i);
            if ls[i] == "END"@ {
                assert(ls[i].take(3) == "END"@);
            }
        } else {
            let q = ls[k].take(j);
            assert(lines[i] == q);
            if k < last {
                lemma_records_before_end(g, k);
                if q == "END"@ {
                    assert(ls[k].take(3) == q.take(3));
                }
            }
        }
    }
    if lines.len() > 0 && lines[0] == "layer-graph-v1"@ {
        assert forall|i: int| 0 <= i < lines.drop_first().len() implies #[trigger] lines.drop_first()[i]
            != "END"@ by {
            assert(lines.drop_first()[i] == lines[i + 1]);
        }
        lemma_no_terminator(initial_state(), lines.drop_first());
    }
    assert(decode_state(encode_spec(g).take(n)) is Err);
}

proof fn lemma_text_lines_joined_then(ls: Seq<Seq<char>>, extra: Seq<char>)
    requires
        forall|i: int| 0 <= i < ls.len() ==> plain_line(#[trigger] ls[i]),
    ensures
        text_lines(joined_lines(ls) + extra) == ls + text_lines(extra),
    decreases ls.len(),
{
    if ls.len() == 0 {
        assert(joined_lines(ls) + extra == extra);
        assert(ls + text_lines(extra) == text_lines(extra));
    } else {
        let rest = ls.drop_first();
        assert forall|i: int| 0 <= i < rest.len() implies plain_line(#[trigger] rest[i]) by {
            assert(rest[i] == ls[i + 1]);
        }
        lemma_text_lines_joined_then(rest, extra);
        assert(joined_lines(ls) + extra == ls[0] + seq!['\n'] + (joined_lines(rest) + extra));
        lemma_text_lines_cons(ls[0], joined_lines(rest) + extra);
        assert(ls == seq![ls[0]] + rest);
    }
}

/// Text after the terminator is refused: reading a graph's interchange text
/// followed by anything more fails.
pub proof fn lemma_trailing_text_refused(g: GraphView, extra: Seq<char>, r: Result<Graph, String>)
    requires
        texts_sorted(g.modules),
        edges_sorted(g.edges),
        extra.len() > 0,
        decode_matches(r, encode_spec(g) + extra),
    ensures
        r is Err,
{
    reveal_strlit("layer-graph-v1");
    let ls = record_lines(g);
    lemma_encode_joined(g);
    lemma_record_lines_plain(g);
    lemma_text_lines_joined(ls);
    lemma_decode_encode_state(g);
    lemma_text_lines_joined_then(ls, extra);
    let more = text_lines(extra);
    assert(more.len() > 0);
    let lines = text_lines(encode_spec(g) + extra);
    assert(lines == ls + more);
    assert(lines[0] == ls[0]);
    assert(lines.drop_first() == ls.drop_first() + more);
    lemma_decode_append(initial_state(), ls.drop_first(), more);
    let end = decode_lines(initial_state(), ls.drop_first());
    assert(end matches Ok(st) && st.ended);
    assert(decode_lines(end->Ok_0, more) is Err);
    assert(decode_state(encode_spec(g) + extra) is Err);
}

} // verus!
