use vstd::prelude::*;
use crate::value::{Value, field_of, find_field, lemma_find_key_bounds, find_key, unique_names};

verus! {

/// A side-effecting instruction that a stage may emit in place of data.
#[derive(Debug)]
pub enum ControlSignal {
    /// Add one to the shared counter.
    Increment,
    /// Print the fixed greeting.
    Announce,
}

/// What a stage that may emit instructions yields per pull.
#[derive(Debug)]
pub enum StageOutput {
    Action(ControlSignal),
    Value(Value),
}

/// Why a pipeline stopped.
#[derive(Debug)]
pub enum PipelineError {
    /// Cancellation was requested.
    Cancelled,
    /// Listing the files or reading their metadata failed.
    SourceFailure(String),
    /// Any other error passed on from a stage.
    UpstreamFailure(String),
}

/// What the action adapter does next.
#[derive(Debug)]
pub enum AdapterAction {
    /// Pull the next output from upstream.
    Pull,
    /// Stop the pipeline with `PipelineError::Cancelled`.
    Cancel,
    /// Add one to the shared counter, then get ready to pull again.
    Increment,
    /// Print the greeting, then get ready to pull again.
    Announce,
    /// Hand this value downstream.
    Deliver(Value),
    /// Upstream has ended: the adapter's stream ends too.
    Exhausted,
}

/// The decisions of the adapter that runs a stage's instructions and passes
/// its values on. Cancellation, once seen, is remembered.
pub struct ActionGate {
    cancelled: bool,
}

impl ActionGate {
    pub closed spec fn is_cancelled(&self) -> bool {
        self.cancelled
    }

    pub fn new() -> (r: ActionGate)
        ensures
            !r.is_cancelled(),
    {
        ActionGate { cancelled: false }
    }

    /// Before each pull: `signal_seen` tells whether a cancellation request
    /// was read just now. Once one has been seen, every later call cancels.
    pub fn before_pull(&mut self, signal_seen: bool) -> (r: AdapterAction)
        ensures
            final(self).is_cancelled() == (old(self).is_cancelled() || signal_seen),
            r is Cancel <==> final(self).is_cancelled(),
            r is Pull <==> !final(self).is_cancelled(),
    {
        if signal_seen {
            self.cancelled = true;
        }
        if self.cancelled {
            AdapterAction::Cancel
        } else {
            AdapterAction::Pull
        }
    }

    /// After a pull: `None` when upstream has ended, else what it yielded.
    pub fn after_pull(&self, pulled: Option<StageOutput>) -> (r: AdapterAction)
        ensures
            match pulled {
                None => r is Exhausted,
                Some(StageOutput::Action(ControlSignal::Increment)) => r is Increment,
                Some(StageOutput::Action(ControlSignal::Announce)) => r is Announce,
                Some(StageOutput::Value(v)) => r == AdapterAction::Deliver(v),
            },
    {
        match pulled {
            None => AdapterAction::Exhausted,
            Some(StageOutput::Action(ControlSignal::Increment)) => AdapterAction::Increment,
            Some(StageOutput::Action(ControlSignal::Announce)) => AdapterAction::Announce,
            Some(StageOutput::Value(v)) => AdapterAction::Deliver(v),
        }
    }
}

/// `needle` occurs in `hay` at some position.
pub open spec fn contains_text(hay: Seq<char>, needle: Seq<char>) -> bool {
    exists|i: int| 0 <= i && i + needle.len() <= hay.len() && #[trigger] hay.subrange(i, i + needle.len()) == needle
}

/// The filter's predicate: a row passes when its field `field` is text, and
/// that text contains `substring` if `must_contain`, or does not contain it
/// otherwise.
pub struct WherePredicate {
    pub field: String,
    pub substring: String,
    pub must_contain: bool,
}

/// Whether `v` passes the predicate.
pub open spec fn passes(p: WherePredicate, v: Value) -> bool {
    match v {
        Value::Row(fields) => match field_of(fields@, p.field@) {
            Some(Value::String(s)) => contains_text(s@, p.substring@) == p.must_contain,
            _ => false,
        },
        _ => false,
    }
}

fn chars_of(s: &String) -> (r: Vec<char>)
    ensures
        r@ == s@,
{
    let n = s.as_str().unicode_len();
    let mut out: Vec<char> = Vec::new();
    let mut i: usize = 0;
    while i < n
        invariant
            i <= n == s@.len(),
            out@ == s@.take(i as int),
        decreases n - i,
    {
        out.push(s.as_str().get_char(i));
        proof {
            assert(out@ =~= s@.take(i + 1));
        }
        i = i + 1;
    }
    proof {
        assert(out@ =~= s@);
    }
    out
}

fn occurs_at(hay: &Vec<char>, needle: &Vec<char>, at: usize) -> (r: bool)
    requires
        at + needle@.len() <= hay@.len(),
    ensures
        r == (hay@.subrange(at as int, at + needle@.len()) == needle@),
{
    let hl = hay.len();
    let mut j: usize = 0;
    while j < needle.len()
        invariant
            hl == hay@.len(),
            j <= needle@.len(),
            at + needle@.len() <= hay@.len(),
            forall|k: int| 0 <= k < j ==> hay@[at + k] == needle@[k],
        decreases needle@.len() - j,
    {
        if hay[at + j] != needle[j] {
            proof {
                assert(hay@.subrange(at as int, at + needle@.len())[j as int] != needle@[j as int]);
            }
            return false;
        }
        j = j + 1;
    }
    proof {
        assert(hay@.subrange(at as int, at + needle@.len()) =~= needle@);
    }
    true
}

/// Whether `needle` occurs in `hay`.
pub fn contains(hay: &String, needle: &String) -> (r: bool)
    ensures
        r == contains_text(hay@, needle@),
{
    let h = chars_of(hay);
    let n = chars_of(needle);
    if n.len() > h.len() {
        return false;
    }
    let last = h.len() - n.len();
    let mut i: usize = 0;
    while i < last
        invariant
            i <= last,
            last + n@.len() == h@.len(),
            h@ == hay@,
            n@ == needle@,
            forall|k: int| 0 <= k < i ==> #[trigger] h@.subrange(k, k + n@.len()) != n@,
        decreases last - i,
    {
        if occurs_at(&h, &n, i) {
            return true;
        }
        i = i + 1;
    }
    let r = occurs_at(&h, &n, last);
    proof {
        if !r {
            assert forall|k: int| 0 <= k && k + n@.len() <= h@.len() implies #[trigger] h@.subrange(k, k + n@.len()) != n@ by {
                assert(k <= last);
            }
        }
    }
    r
}

impl WherePredicate {
    /// The predicate that keeps rows whose `field` does not contain `substring`.
    pub fn excluding(field: String, substring: String) -> (r: WherePredicate)
        ensures
            r.field == field && r.substring == substring && !r.must_contain,
    {
        WherePredicate { field, substring, must_contain: false }
    }

    /// Whether `v` passes this predicate.
    pub fn accepts(&self, v: &Value) -> (r: bool)
        ensures
            r == passes(*self, *v),
    {
        match v {
            Value::Row(fields) => {
                let found = find_field(fields, &self.field);
                proof {
                    lemma_find_key_bounds(fields@, self.field@, fields@.len() as int);
                }
                match found {
                    Some(j) => match &fields[j].1 {
                        Value::String(s) => contains(s, &self.substring) == self.must_contain,
                        _ => false,
                    },
                    None => false,
                }
            },
            _ => false,
        }
    }
}

/// What kind of file system entry a path names.
#[derive(Debug)]
pub enum EntryKind {
    Dir,
    File,
    Other,
}

/// The row that the file source emits for one path: `name` is the path and
/// `type` is `"Dir"`, `"File"`, or nothing.
pub fn source_record(name: String, kind: EntryKind) -> (r: Value)
    ensures
        r is Row,
        r->Row_0@.len() == 2,
        r->Row_0@[0].0@ == seq!['n', 'a', 'm', 'e'],
        r->Row_0@[0].1 == Value::String(name),
        r->Row_0@[1].0@ == seq!['t', 'y', 'p', 'e'],
        match kind {
            EntryKind::Dir => r->Row_0@[1].1 matches Value::String(t) && t@ == seq!['D', 'i', 'r'],
            EntryKind::File => r->Row_0@[1].1 matches Value::String(t) && t@ == seq!['F', 'i', 'l', 'e'],
            EntryKind::Other => r->Row_0@[1].1 == Value::Nothing,
        },
        unique_names(r),
{
    proof {
        reveal_strlit("name");
        reveal_strlit("type");
        reveal_strlit("Dir");
        reveal_strlit("File");
    }
    let mut row = Value::new_row();
    let name_key = String::from_str("name");
    let type_key = String::from_str("type");
    assert(name_key@ =~= seq!['n', 'a', 'm', 'e']);
    assert(type_key@ =~= seq!['t', 'y', 'p', 'e']);
    row.insert_field(name_key, Value::String(name));
    let kind_value = match kind {
        EntryKind::Dir => Value::String(String::from_str("Dir")),
        EntryKind::File => Value::String(String::from_str("File")),
        EntryKind::Other => Value::Nothing,
    };
    proof {
        assert(find_key(Seq::<(String, Value)>::empty(), name_key@, 0) is None);
        assert(row->Row_0@.len() == 1);
        assert(row->Row_0@[0].0@[0] != type_key@[0]);
        assert(find_key(row->Row_0@, type_key@, 0) is None);
        assert(find_key(row->Row_0@, type_key@, 1) is None);
    }
    row.insert_field(type_key, kind_value);
    row
}

} // verus!
