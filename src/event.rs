use vstd::prelude::*;

verus! {

/// A log record: named fields holding raw bytes, in insertion order.
#[derive(Clone, Debug, PartialEq, Eq)]
pub struct LogEvent {
    pub fields: Vec<(Vec<u8>, Vec<u8>)>,
}

/// The key under which a log record carries its message text.
pub open spec fn message_key() -> Seq<u8> {
    seq![109u8, 101u8, 115u8, 115u8, 97u8, 103u8, 101u8]
}

/// Value of the first field named `name`, if any.
pub open spec fn lookup(fields: Seq<(Seq<u8>, Seq<u8>)>, name: Seq<u8>) -> Option<Seq<u8>>
    decreases fields.len(),
{
    if fields.len() == 0 {
        None
    } else if fields[0].0 == name {
        Some(fields[0].1)
    } else {
        lookup(fields.drop_first(), name)
    }
}

impl View for LogEvent {
    type V = Seq<(Seq<u8>, Seq<u8>)>;

    open spec fn view(&self) -> Seq<(Seq<u8>, Seq<u8>)> {
        self.fields@.map_values(|p: (Vec<u8>, Vec<u8>)| (p.0@, p.1@))
    }
}

pub fn bytes_eq(a: &[u8], b: &[u8]) -> (r: bool)
    ensures
        r == (a@ == b@),
{
    if a.len() != b.len() {
        return false;
    }
    let mut i: usize = 0;
    while i < a.len()
        invariant
            a@.len() == b@.len(),
            0 <= i <= a@.len(),
            forall|j: int| 0 <= j < i ==> a@[j] == b@[j],
        decreases a@.len() - i,
    {
        if a[i] != b[i] {
            return false;
        }
        i = i + 1;
    }
    assert(a@ =~= b@);
    true
}

proof fn lemma_lookup_skip(fields: Seq<(Seq<u8>, Seq<u8>)>, name: Seq<u8>, i: int)
    requires
        0 <= i <= fields.len(),
        forall|j: int| 0 <= j < i ==> fields[j].0 != name,
    ensures
        lookup(fields, name) == lookup(fields.subrange(i, fields.len() as int), name),
    decreases i,
{
    if i > 0 {
        lemma_lookup_skip(fields.drop_first(), name, i - 1);
        assert(fields.drop_first().subrange(i - 1, fields.len() - 1) =~= fields.subrange(
            i,
            fields.len() as int,
        ));
    } else {
        assert(fields.subrange(0, fields.len() as int) =~= fields);
    }
}

impl LogEvent {
    /// Value of the first field named `name`.
    pub fn get(&self, name: &[u8]) -> (r: Option<&Vec<u8>>)
        ensures
            match r {
                Some(v) => lookup(self@, name@) == Some(v@),
                None => lookup(self@, name@) is None,
            },
    {
        let mut i: usize = 0;
        while i < self.fields.len()
            invariant
                0 <= i <= self.fields@.len(),
                forall|j: int| 0 <= j < i ==> self@[j].0 != name@,
            decreases self.fields@.len() - i,
        {
            if bytes_eq(self.fields[i].0.as_slice(), name) {
                proof {
                    lemma_lookup_skip(self@, name@, i as int);
                    let rest = self@.subrange(i as int, self@.len() as int);
                    assert(rest[0] == self@[i as int]);
                }
                return Some(&self.fields[i].1);
            }
            i = i + 1;
        }
        proof {
            lemma_lookup_skip(self@, name@, i as int);
        }
        None
    }
}

} // verus!
