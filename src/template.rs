use vstd::prelude::*;
use crate::event::{LogEvent, lookup};

verus! {

pub const OPEN_BRACE: u8 = 123;

pub const CLOSE_BRACE: u8 = 125;

/// A path expression: bytes in which each `{{name}}` stands for the value of
/// the record's field `name` (a name is one or more bytes, none of them `}`).
pub struct Template {
    pub src: Vec<u8>,
}

/// First position at or after `k` that holds `}`, or the length.
pub open spec fn key_end(t: Seq<u8>, k: int) -> int
    decreases t.len() - k,
{
    if k >= t.len() || k < 0 {
        t.len() as int
    } else if t[k] == CLOSE_BRACE {
        k
    } else {
        key_end(t, k + 1)
    }
}

/// A placeholder starts at `i`.
pub open spec fn placeholder_at(t: Seq<u8>, i: int) -> bool {
    let j = key_end(t, i + 2);
    0 <= i && i + 1 < t.len() && t[i] == OPEN_BRACE && t[i + 1] == OPEN_BRACE && j > i + 2
        && j + 1 < t.len() && t[j + 1] == CLOSE_BRACE
}

/// Rendering of `t` from position `i`: the output, and the names of the
/// placeholders whose field the record lacks, in order.
pub open spec fn render_from(t: Seq<u8>, i: int, fields: Seq<(Seq<u8>, Seq<u8>)>) -> (Seq<u8>, Seq<Seq<u8>>)
    decreases t.len() - i,
{
    if i >= t.len() || i < 0 {
        (Seq::empty(), Seq::empty())
    } else if placeholder_at(t, i) {
        let j = key_end(t, i + 2);
        let rest = render_from(t, j + 2, fields);
        match lookup(fields, t.subrange(i + 2, j)) {
            Some(v) => (v + rest.0, rest.1),
            None => (rest.0, seq![t.subrange(i + 2, j)] + rest.1),
        }
    } else {
        let rest = render_from(t, i + 1, fields);
        (seq![t[i]] + rest.0, rest.1)
    }
}

pub open spec fn rendered(t: Seq<u8>, fields: Seq<(Seq<u8>, Seq<u8>)>) -> Seq<u8> {
    render_from(t, 0, fields).0
}

pub open spec fn missing_keys(t: Seq<u8>, fields: Seq<(Seq<u8>, Seq<u8>)>) -> Seq<Seq<u8>> {
    render_from(t, 0, fields).1
}

/// The template resolves against the record: every field it names is there.
pub open spec fn resolves(t: Seq<u8>, fields: Seq<(Seq<u8>, Seq<u8>)>) -> bool {
    missing_keys(t, fields).len() == 0
}

proof fn lemma_key_end_bounds(t: Seq<u8>, k: int)
    requires
        0 <= k,
    ensures
        k <= key_end(t, k) || k > t.len(),
        key_end(t, k) <= t.len(),
        key_end(t, k) < t.len() ==> t[key_end(t, k)] == CLOSE_BRACE,
    decreases t.len() - k,
{
    if k < t.len() && t[k] != CLOSE_BRACE {
        lemma_key_end_bounds(t, k + 1);
    }
}

fn find_key_end(t: &Vec<u8>, k: usize) -> (r: usize)
    ensures
        r as int == key_end(t@, k as int),
{
    let mut j: usize = k;
    if j > t.len() {
        return t.len();
    }
    while j < t.len() && t[j] != CLOSE_BRACE
        invariant
            k <= j <= t@.len(),
            key_end(t@, k as int) == key_end(t@, j as int),
        decreases t@.len() - j,
    {
        j = j + 1;
    }
    j
}

impl View for Template {
    type V = Seq<u8>;

    open spec fn view(&self) -> Seq<u8> {
        self.src@
    }
}

impl Template {
    pub fn new(src: Vec<u8>) -> (r: Template)
        ensures
            r@ == src@,
    {
        Template { src }
    }

    /// Renders the template against a record. Fails with the names of the
    /// fields it lacks, exactly when there are any.
    pub fn render(&self, event: &LogEvent) -> (r: Result<Vec<u8>, Vec<Vec<u8>>>)
        ensures
            match r {
                Ok(out) => resolves(self@, event@) && out@ == rendered(self@, event@),
                Err(keys) => !resolves(self@, event@) && keys@.map_values(|k: Vec<u8>| k@)
                    == missing_keys(self@, event@),
            },
    {
        let t = &self.src;
        let mut out: Vec<u8> = Vec::new();
        let mut missing: Vec<Vec<u8>> = Vec::new();
        let mut i: usize = 0;
        while i < t.len()
            invariant
                0 <= i <= t@.len(),
                out@ + render_from(t@, i as int, event@).0 == rendered(t@, event@),
                missing@.map_values(|k: Vec<u8>| k@) + render_from(t@, i as int, event@).1
                    == missing_keys(t@, event@),
            decreases t@.len() - i,
        {
            let ghost old_out = out@;
            let ghost old_missing = missing@.map_values(|k: Vec<u8>| k@);
            let mut is_placeholder = false;
            let mut j: usize = 0;
            if i + 1 < t.len() && t[i] == OPEN_BRACE && t[i + 1] == OPEN_BRACE {
                j = find_key_end(t, i + 2);
                proof {
                    lemma_key_end_bounds(t@, i + 2);
                }
                if j > i + 2 && j < t.len() - 1 && t[j + 1] == CLOSE_BRACE {
                    is_placeholder = true;
                }
            }
            if is_placeholder {
                assert(placeholder_at(t@, i as int));
                let name = slice_to_vec(t, i + 2, j);
                match event.get(name.as_slice()) {
                    Some(v) => {
                        let mut k: usize = 0;
                        while k < v.len()
                            invariant
                                0 <= k <= v@.len(),
                                out@ == old_out + v@.subrange(0, k as int),
                            decreases v@.len() - k,
                        {
                            out.push(v[k]);
                            k = k + 1;
                        }
                        assert(v@.subrange(0, v@.len() as int) =~= v@);
                    },
                    None => {
                        missing.push(name);
                        assert(missing@.map_values(|k: Vec<u8>| k@) =~= old_missing.push(
                            t@.subrange(i + 2, j as int),
                        ));
                    },
                }
                i = j + 2;
            } else {
                out.push(t[i]);
                i = i + 1;
            }
            assert(out@ + render_from(t@, i as int, event@).0 =~= rendered(t@, event@));
            assert(missing@.map_values(|k: Vec<u8>| k@) + render_from(t@, i as int, event@).1
                =~= missing_keys(t@, event@));
        }
        assert(out@ =~= rendered(t@, event@));
        assert(missing@.map_values(|k: Vec<u8>| k@) =~= missing_keys(t@, event@));
        if missing.len() == 0 {
            Ok(out)
        } else {
            Err(missing)
        }
    }
}

fn slice_to_vec(t: &Vec<u8>, from: usize, to: usize) -> (r: Vec<u8>)
    requires
        from <= to <= t@.len(),
    ensures
        r@ == t@.subrange(from as int, to as int),
{
    let mut r: Vec<u8> = Vec::new();
    let mut k: usize = from;
    while k < to
        invariant
            from <= k <= to <= t@.len(),
            r@ == t@.subrange(from as int, k as int),
        decreases to - k,
    {
        r.push(t[k]);
        k = k + 1;
        assert(r@ =~= t@.subrange(from as int, k as int));
    }
    r
}

} // verus!
