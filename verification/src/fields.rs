//! Reading a JSON object field by field, without keeping what nobody asks for.

use vstd::prelude::*;
use vstd::slice::*;

use crate::json::{
    deeper, fields_of, is_deeper, read_string, read_value, skip_value, string_read, value_read,
    value_skipped, Json, Reading, Tree,
};
use crate::text::{name_set, same_text};

verus! {

/// JSON white space.
pub open spec fn blank(b: u8) -> bool {
    b == 0x20 || b == 0x0a || b == 0x09 || b == 0x0d
}

/// The number of blanks `input` starts with.
pub open spec fn blanks(input: Seq<u8>) -> int
    decreases input.len(),
{
    if input.len() > 0 && blank(input[0]) {
        1 + blanks(input.skip(1))
    } else {
        0
    }
}

/// A reading of what follows the first `n` bytes, as a reading of the whole.
pub open spec fn after<T>(n: int, reading: Reading<T>) -> Reading<T> {
    match reading {
        Reading::Done(value, used) => Reading::Done(value, (n + used) as usize),
        other => other,
    }
}

/// Receives the fields of an object one at a time.
pub trait FieldSink: View {
    /// What becomes of the state `s` when the field `name` comes and `rest` follows its name:
    /// `Done` with the new state and the length of the colon and the value.
    spec fn step(s: Self::V, name: Seq<char>, rest: Seq<u8>) -> Reading<Self::V>;

    /// Takes one field off the front of `rest`.
    fn field(&mut self, name: &str, rest: &[u8]) -> (r: Reading<()>)
        ensures
            match Self::step(old(self)@, name@, rest@) {
                Reading::Done(s, used) => r == Reading::Done((), used) && final(self)@ == s && 0
                    < used <= rest@.len(),
                Reading::CutOff => r is CutOff,
                Reading::Bad => r is Bad,
            },
    ;
}

/// What comes next inside an object.
pub enum Ahead {
    /// A field, whose name starts here.
    Name(usize),
    /// The closing brace, which stands here.
    End(usize),
    /// The bytes end first.
    CutOff,
    /// Something that has no place there.
    Bad,
}

/// What comes next inside an object: the closing brace, or the name of a field behind a comma, or
/// without one where it is the `first`.
pub open spec fn ahead(rest: Seq<u8>, first: bool) -> Ahead {
    let at = blanks(rest);
    let next = at + 1 + blanks(rest.skip(at + 1));
    if at >= rest.len() {
        Ahead::CutOff
    } else if rest[at] == 0x7d {
        Ahead::End(at as usize)
    } else if first {
        if rest[at] == 0x22 {
            Ahead::Name(at as usize)
        } else {
            Ahead::Bad
        }
    } else if rest[at] != 0x2c {
        Ahead::Bad
    } else if next >= rest.len() {
        Ahead::CutOff
    } else if rest[next] == 0x22 {
        Ahead::Name(next as usize)
    } else {
        Ahead::Bad
    }
}

/// Reads the fields of an object up to and with its closing brace; `first` as long as no
/// field has been read.
pub open spec fn fields_read<S: FieldSink>(rest: Seq<u8>, first: bool, s: S::V) -> Reading<S::V>
    decreases rest.len(),
{
    match ahead(rest, first) {
        Ahead::Name(at) => if at < rest.len() {
            field_read::<S>(rest, at as int, s)
        } else {
            Reading::Bad
        },
        Ahead::End(at) => Reading::Done(s, (at + 1) as usize),
        Ahead::CutOff => Reading::CutOff,
        Ahead::Bad => Reading::Bad,
    }
}

/// Reads the field whose name starts at `at`, and those that follow it.
pub open spec fn field_read<S: FieldSink>(rest: Seq<u8>, at: int, s: S::V) -> Reading<S::V>
    decreases rest.len(), 0int,
    when 0 <= at < rest.len()
{
    match string_read(rest.skip(at)) {
        Reading::Done(name, length) => {
            let value = at + length;
            match S::step(s, name, rest.skip(value)) {
                Reading::Done(next, used) => {
                    let end = value + used;
                    if at < end <= rest.len() {
                        after(end, fields_read::<S>(rest.skip(end), false, next))
                    } else {
                        Reading::Bad
                    }
                },
                Reading::CutOff => Reading::CutOff,
                Reading::Bad => Reading::Bad,
            }
        },
        Reading::CutOff => Reading::CutOff,
        Reading::Bad => Reading::Bad,
    }
}

/// The blanks of `input` are a prefix of it, and no blank follows them.
proof fn blanks_bounds(input: Seq<u8>)
    ensures
        0 <= blanks(input) <= input.len(),
        blanks(input) < input.len() ==> !blank(input[blanks(input)]),
    decreases input.len(),
{
    if input.len() > 0 && blank(input[0]) {
        blanks_bounds(input.skip(1));
    }
}

/// Skips the blanks from `from` on.
pub(crate) fn skip_blanks(input: &[u8], from: usize) -> (at: usize)
    requires
        from <= input@.len(),
    ensures
        at == from + blanks(input@.skip(from as int)),
        from <= at <= input@.len(),
{
    let mut at = from;
    while at < input.len() && (input[at] == 0x20 || input[at] == 0x0a || input[at] == 0x09
        || input[at] == 0x0d)
        invariant
            from <= at <= input@.len(),
            at + blanks(input@.skip(at as int)) == from + blanks(input@.skip(from as int)),
        decreases input@.len() - at,
    {
        assert(input@.skip(at as int).skip(1) == input@.skip(at + 1));
        at = at + 1;
    }
    at
}

/// What comes next stands within the bytes.
proof fn ahead_bounds(rest: Seq<u8>, first: bool)
    requires
        rest.len() <= usize::MAX,
    ensures
        match ahead(rest, first) {
            Ahead::Name(at) => at < rest.len(),
            Ahead::End(at) => at < rest.len(),
            _ => true,
        },
{
    blanks_bounds(rest);
    blanks_bounds(rest.skip(blanks(rest) + 1));
}

/// Looks for what comes next, from `from` on.
fn look_ahead(input: &[u8], from: usize, first: bool) -> (r: Ahead)
    requires
        from <= input@.len(),
    ensures
        match (r, ahead(input@.skip(from as int), first)) {
            (Ahead::Name(at), Ahead::Name(n)) => at == from + n && at < input@.len(),
            (Ahead::End(at), Ahead::End(n)) => at == from + n && at < input@.len(),
            (Ahead::CutOff, Ahead::CutOff) => true,
            (Ahead::Bad, Ahead::Bad) => true,
            _ => false,
        },
{
    let ghost rest = input@.skip(from as int);
    proof {
        blanks_bounds(rest);
    }
    let at = skip_blanks(input, from);
    if at == input.len() {
        return Ahead::CutOff;
    }
    assert(input@[at as int] == rest[at - from]);
    if input[at] == 0x7d {
        return Ahead::End(at);
    }
    if first {
        return if input[at] == 0x22 {
            Ahead::Name(at)
        } else {
            Ahead::Bad
        };
    }
    if input[at] != 0x2c {
        return Ahead::Bad;
    }
    assert(input@.skip(at + 1) == rest.skip(at - from + 1));
    proof {
        blanks_bounds(rest.skip(at - from + 1));
    }
    let next = skip_blanks(input, at + 1);
    if next == input.len() {
        return Ahead::CutOff;
    }
    assert(input@[next as int] == rest[next - from]);
    if input[next] == 0x22 {
        Ahead::Name(next)
    } else {
        Ahead::Bad
    }
}

/// What comes next inside an array: `true` with the place where an item starts, behind a comma or
/// without one where it is the `first`; or `false` with the place of the closing bracket.
pub open spec fn item_ahead(rest: Seq<u8>, first: bool) -> Reading<bool> {
    let at = blanks(rest);
    let next = at + 1 + blanks(rest.skip(at + 1));
    if at >= rest.len() {
        Reading::CutOff
    } else if rest[at] == 0x5d {
        Reading::Done(false, at as usize)
    } else if first {
        Reading::Done(true, at as usize)
    } else if rest[at] != 0x2c {
        Reading::Bad
    } else if next >= rest.len() {
        Reading::CutOff
    } else if rest[next] == 0x5d {
        Reading::Bad
    } else {
        Reading::Done(true, next as usize)
    }
}

/// Looks for what comes next inside an array.
pub(crate) fn look_for_item(rest: &[u8], first: bool) -> (r: Reading<bool>)
    ensures
        r == item_ahead(rest@, first),
        r matches Reading::Done(_, at) ==> at < rest@.len(),
{
    proof {
        assert(rest@.skip(0) == rest@);
        blanks_bounds(rest@);
    }
    let at = skip_blanks(rest, 0);
    if at == rest.len() {
        return Reading::CutOff;
    }
    if rest[at] == 0x5d {
        return Reading::Done(false, at);
    }
    if first {
        return Reading::Done(true, at);
    }
    if rest[at] != 0x2c {
        return Reading::Bad;
    }
    proof {
        blanks_bounds(rest@.skip(at + 1));
    }
    let next = skip_blanks(rest, at + 1);
    if next == rest.len() {
        Reading::CutOff
    } else if rest[next] == 0x5d {
        Reading::Bad
    } else {
        Reading::Done(true, next)
    }
}

/// Reads the end of an array: nothing but its closing bracket may come.
pub open spec fn array_end(rest: Seq<u8>) -> Reading<()> {
    let at = blanks(rest);
    if at >= rest.len() {
        Reading::CutOff
    } else if rest[at] == 0x5d {
        Reading::Done((), (at + 1) as usize)
    } else {
        Reading::Bad
    }
}

/// Reads the end of an array.
pub(crate) fn read_array_end(rest: &[u8]) -> (r: Reading<()>)
    ensures
        r == array_end(rest@),
        r matches Reading::Done(_, used) ==> 0 < used <= rest@.len(),
{
    proof {
        assert(rest@.skip(0) == rest@);
        blanks_bounds(rest@);
    }
    let at = skip_blanks(rest, 0);
    if at == rest.len() {
        Reading::CutOff
    } else if rest[at] == 0x5d {
        Reading::Done((), at + 1)
    } else {
        Reading::Bad
    }
}

/// What is read ends within the bytes.
pub proof fn fields_read_bounds<S: FieldSink>(rest: Seq<u8>, first: bool, s: S::V)
    requires
        rest.len() <= usize::MAX,
    ensures
        fields_read::<S>(rest, first, s) matches Reading::Done(_, used) ==> 0 < used <= rest.len(),
    decreases rest.len(), 1int,
{
    ahead_bounds(rest, first);
    if let Ahead::Name(at) = ahead(rest, first) {
        field_read_bounds::<S>(rest, at as int, s);
    }
}

proof fn field_read_bounds<S: FieldSink>(rest: Seq<u8>, at: int, s: S::V)
    requires
        0 <= at < rest.len() <= usize::MAX,
    ensures
        field_read::<S>(rest, at, s) matches Reading::Done(_, used) ==> 0 < used <= rest.len(),
    decreases rest.len(), 0int,
{
    if let Reading::Done(name, length) = string_read(rest.skip(at)) {
        let value = at + length;
        if let Reading::Done(next, used) = S::step(s, name, rest.skip(value)) {
            let end = value + used;
            if at < end <= rest.len() {
                fields_read_bounds::<S>(rest.skip(end), false, next);
            }
        }
    }
}

/// Reads the fields of an object up to and with its closing brace.
#[verifier::rlimit(40)]
fn read_fields<S: FieldSink>(sink: &mut S, input: &[u8]) -> (r: Reading<()>)
    ensures
        match fields_read::<S>(input@, true, old(sink)@) {
            Reading::Done(s, used) => r == Reading::Done((), used) && final(sink)@ == s && 0 < used
                <= input@.len(),
            Reading::CutOff => r is CutOff,
            Reading::Bad => r is Bad,
        },
{
    let total = input.len();
    let ghost whole = fields_read::<S>(input@, true, sink@);
    let mut at: usize = 0;
    let mut first = true;
    assert(input@.skip(0) == input@);
    assert(after(0, whole) == whole) by {
        fields_read_bounds::<S>(input@, true, sink@);
    }
    loop
        invariant
            at <= input@.len() == total,
            whole == fields_read::<S>(input@, true, old(sink)@),
            whole == after(at as int, fields_read::<S>(input@.skip(at as int), first, sink@)),
        decreases input@.len() - at,
    {
        let ghost rest = input@.skip(at as int);
        match look_ahead(input, at, first) {
            Ahead::CutOff => {
                return Reading::CutOff;
            },
            Ahead::Bad => {
                return Reading::Bad;
            },
            Ahead::End(end) => {
                return Reading::Done((), end + 1);
            },
            Ahead::Name(start) => {
                let ghost here = start - at;
                assert(input@.skip(start as int) == rest.skip(here));
                match read_string(slice_subrange(input, start, total)) {
                    Reading::Done(name, length) => {
                        let value = start + length;
                        assert(input@.skip(value as int) == rest.skip(here + length));
                        match sink.field(name.as_str(), slice_subrange(input, value, total)) {
                            Reading::Done(_, used) => {
                                let end = value + used;
                                assert(input@.skip(end as int) == rest.skip(here + length + used));
                                proof {
                                    fields_read_bounds::<S>(input@.skip(end as int), false, sink@);
                                }
                                at = end;
                                first = false;
                            },
                            Reading::CutOff => {
                                return Reading::CutOff;
                            },
                            Reading::Bad => {
                                return Reading::Bad;
                            },
                        }
                    },
                    Reading::CutOff => {
                        return Reading::CutOff;
                    },
                    Reading::Bad => {
                        return Reading::Bad;
                    },
                }
            },
        }
    }
}

/// Reads one object off the front of `input`. Anything else in its place is an error, found to be
/// cut off where the value itself is; an array is an error at once.
pub open spec fn object_read<S: FieldSink>(input: Seq<u8>, s: S::V) -> Reading<S::V> {
    let at = blanks(input);
    if !(0 <= at < input.len()) {
        Reading::CutOff
    } else if input[at] == 0x7b {
        after(at + 1, fields_read::<S>(input.skip(at + 1), true, s))
    } else if input[at] == 0x5b {
        Reading::Bad
    } else {
        match value_read(input) {
            Reading::CutOff => Reading::CutOff,
            _ => Reading::Bad,
        }
    }
}

/// Reads one object off the front of `input` into `sink`.
pub fn read_object<S: FieldSink>(sink: &mut S, input: &[u8]) -> (r: Reading<()>)
    ensures
        match object_read::<S>(input@, old(sink)@) {
            Reading::Done(s, used) => r == Reading::Done((), used) && final(sink)@ == s && 0 < used
                <= input@.len(),
            Reading::CutOff => r is CutOff,
            Reading::Bad => r is Bad,
        },
{
    proof {
        blanks_bounds(input@);
        assert(input@.skip(0) == input@);
    }
    let at = skip_blanks(input, 0);
    if at == input.len() {
        Reading::CutOff
    } else if input[at] == 0x7b {
        match read_fields(sink, slice_subrange(input, at + 1, input.len())) {
            Reading::Done(_, used) => Reading::Done((), at + 1 + used),
            Reading::CutOff => Reading::CutOff,
            Reading::Bad => Reading::Bad,
        }
    } else if input[at] == 0x5b {
        Reading::Bad
    } else {
        match read_value(input) {
            Reading::CutOff => Reading::CutOff,
            _ => Reading::Bad,
        }
    }
}

/// Reads `input` as one object and nothing else but blanks.
pub open spec fn whole_object_read<S: FieldSink>(input: Seq<u8>, s: S::V) -> Reading<S::V> {
    match object_read::<S>(input, s) {
        Reading::Done(value, used) => if used + blanks(input.skip(used as int)) == input.len() {
            Reading::Done(value, used)
        } else {
            Reading::Bad
        },
        other => other,
    }
}

/// The fields of an object end with its closing brace.
proof fn fields_read_end<S: FieldSink>(rest: Seq<u8>, first: bool, s: S::V)
    requires
        rest.len() <= usize::MAX,
    ensures
        fields_read::<S>(rest, first, s) matches Reading::Done(_, used) ==> 0 < used <= rest.len()
            && rest[used - 1] == 0x7d,
    decreases rest.len(), 1int,
{
    ahead_bounds(rest, first);
    blanks_bounds(rest);
    if let Ahead::Name(at) = ahead(rest, first) {
        field_read_end::<S>(rest, at as int, s);
    }
}

proof fn field_read_end<S: FieldSink>(rest: Seq<u8>, at: int, s: S::V)
    requires
        0 <= at < rest.len() <= usize::MAX,
    ensures
        field_read::<S>(rest, at, s) matches Reading::Done(_, used) ==> 0 < used <= rest.len()
            && rest[used - 1] == 0x7d,
    decreases rest.len(), 0int,
{
    if let Reading::Done(name, length) = string_read(rest.skip(at)) {
        let value = at + length;
        if let Reading::Done(next, used) = S::step(s, name, rest.skip(value)) {
            let end = value + used;
            if at < end <= rest.len() {
                fields_read_end::<S>(rest.skip(end), false, next);
            }
        }
    }
}

/// Blanks end with a blank.
proof fn blanks_end(input: Seq<u8>)
    requires
        input.len() > 0,
        blanks(input) == input.len(),
    ensures
        blank(input.last()),
    decreases input.len(),
{
    if input.len() > 1 {
        assert(input.skip(1).last() == input.last());
        blanks_end(input.skip(1));
    }
}

/// What is read as one object ends with a closing brace, but for blanks.
pub proof fn whole_object_ends<S: FieldSink>(input: Seq<u8>, s: S::V)
    requires
        input.len() <= usize::MAX,
    ensures
        whole_object_read::<S>(input, s) is Done ==> input.len() > 0 && (input.last() == 0x7d
            || blank(input.last())),
{
    blanks_bounds(input);
    let at = blanks(input);
    if at < input.len() {
        fields_read_end::<S>(input.skip(at + 1), true, s);
    }
    if let Reading::Done(_, used) = object_read::<S>(input, s) {
        let rest = input.skip(used as int);
        if rest.len() > 0 && blanks(rest) == rest.len() {
            blanks_end(rest);
        }
    }
}

/// Reads `input` as one object and nothing else but blanks into `sink`.
pub fn read_whole_object<S: FieldSink>(sink: &mut S, input: &[u8]) -> (r: Reading<()>)
    ensures
        match whole_object_read::<S>(input@, old(sink)@) {
            Reading::Done(s, used) => r == Reading::Done((), used) && final(sink)@ == s,
            Reading::CutOff => r is CutOff,
            Reading::Bad => r is Bad,
        },
{
    match read_object(sink, input) {
        Reading::Done(_, used) => {
            if skip_blanks(input, used) == input.len() {
                Reading::Done((), used)
            } else {
                Reading::Bad
            }
        },
        Reading::CutOff => Reading::CutOff,
        Reading::Bad => Reading::Bad,
    }
}

/// The colon that follows a field's name.
pub open spec fn colon_read(rest: Seq<u8>) -> Reading<()> {
    let at = blanks(rest);
    if !(0 <= at < rest.len()) {
        Reading::CutOff
    } else if rest[at] == 0x3a {
        Reading::Done((), (at + 1) as usize)
    } else {
        Reading::Bad
    }
}

/// Skips the colon that follows a field's name.
pub fn read_colon(rest: &[u8]) -> (r: Reading<()>)
    ensures
        r == colon_read(rest@),
        r matches Reading::Done(_, used) ==> 0 < used <= rest@.len(),
{
    proof {
        blanks_bounds(rest@);
        assert(rest@.skip(0) == rest@);
    }
    let at = skip_blanks(rest, 0);
    if at == rest.len() {
        Reading::CutOff
    } else if rest[at] == 0x3a {
        Reading::Done((), at + 1)
    } else {
        Reading::Bad
    }
}

/// What `next` comes to when it reads what follows the colon of a field.
pub open spec fn followed_by<T>(colon: Reading<()>, next: Reading<T>) -> Reading<T> {
    match colon {
        Reading::Done(_, used) => after(used as int, next),
        Reading::CutOff => Reading::CutOff,
        Reading::Bad => Reading::Bad,
    }
}

/// What follows the colon at the front of `rest`.
pub open spec fn behind_colon(rest: Seq<u8>) -> Seq<u8> {
    rest.skip(blanks(rest) + 1)
}

/// The levels of nesting that a value inside an object may have: one less than a whole document,
/// as the object is one of them.
pub const MAX_NESTING: usize = 126;

/// A value that is kept, unless it is nested too deep.
pub open spec fn kept_value(input: Seq<u8>) -> Reading<Tree> {
    match value_read(input) {
        Reading::Done(tree, used) => if deeper(tree, MAX_NESTING as nat) {
            Reading::Bad
        } else {
            Reading::Done(tree, used)
        },
        other => other,
    }
}

/// The value of a field, kept.
pub open spec fn field_value(rest: Seq<u8>) -> Reading<Tree> {
    followed_by(colon_read(rest), kept_value(behind_colon(rest)))
}

/// The value of a field, skipped.
pub open spec fn field_skipped(rest: Seq<u8>) -> Reading<()> {
    followed_by(colon_read(rest), value_skipped(behind_colon(rest)))
}

/// Reads the value of a field.
pub fn read_field_value(rest: &[u8]) -> (r: Reading<Json>)
    ensures
        match r {
            Reading::Done(json, used) => field_value(rest@) == Reading::Done(json@, used) && 0 < used
                <= rest@.len(),
            Reading::CutOff => field_value(rest@) == Reading::<Tree>::CutOff,
            Reading::Bad => field_value(rest@) == Reading::<Tree>::Bad,
        },
{
    match read_colon(rest) {
        Reading::Done(_, at) => {
            match read_value(slice_subrange(rest, at, rest.len())) {
                Reading::Done(json, used) => if is_deeper(&json, MAX_NESTING) {
                    Reading::Bad
                } else {
                    Reading::Done(json, at + used)
                },
                Reading::CutOff => Reading::CutOff,
                Reading::Bad => Reading::Bad,
            }
        },
        Reading::CutOff => Reading::CutOff,
        Reading::Bad => Reading::Bad,
    }
}

/// Skips the value of a field.
pub fn skip_field_value(rest: &[u8]) -> (r: Reading<()>)
    ensures
        r == field_skipped(rest@),
        r matches Reading::Done(_, used) ==> 0 < used <= rest@.len(),
{
    match read_colon(rest) {
        Reading::Done(_, at) => {
            match skip_value(slice_subrange(rest, at, rest.len())) {
                Reading::Done(_, used) => Reading::Done((), at + used),
                Reading::CutOff => Reading::CutOff,
                Reading::Bad => Reading::Bad,
            }
        },
        Reading::CutOff => Reading::CutOff,
        Reading::Bad => Reading::Bad,
    }
}

/// Keeps the fields that are wanted, in the order they come in, and skips the others.
pub struct Gathered {
    pub wanted: Vec<String>,
    pub found: Vec<(String, Json)>,
}

/// What a [`Gathered`] holds.
pub ghost struct Gathering {
    pub wanted: Set<Seq<char>>,
    pub found: Seq<(Seq<char>, Tree)>,
}

impl View for Gathered {
    type V = Gathering;

    open spec fn view(&self) -> Gathering {
        Gathering {
            wanted: name_set(self.wanted@),
            found: fields_of(self.found@),
        }
    }
}

impl FieldSink for Gathered {
    open spec fn step(s: Gathering, name: Seq<char>, rest: Seq<u8>) -> Reading<Gathering> {
        if s.wanted.contains(name) {
            match field_value(rest) {
                Reading::Done(tree, used) => Reading::Done(
                    Gathering { wanted: s.wanted, found: s.found.push((name, tree)) },
                    used,
                ),
                Reading::CutOff => Reading::CutOff,
                Reading::Bad => Reading::Bad,
            }
        } else {
            match field_skipped(rest) {
                Reading::Done(_, used) => Reading::Done(s, used),
                Reading::CutOff => Reading::CutOff,
                Reading::Bad => Reading::Bad,
            }
        }
    }

    fn field(&mut self, name: &str, rest: &[u8]) -> (r: Reading<()>) {
        let mut wanted = false;
        let mut i: usize = 0;
        while i < self.wanted.len() && !wanted
            invariant
                *self == *old(self),
                i <= self.wanted@.len(),
                wanted ==> self@.wanted.contains(name@),
                !wanted ==> forall|k: int| 0 <= k < i ==> (#[trigger] self.wanted@[k])@ != name@,
            decreases self.wanted@.len() - i + (if wanted { 0int } else { 1int }),
        {
            if same_text(self.wanted[i].as_str(), name) {
                wanted = true;
            } else {
                i = i + 1;
            }
        }
        assert(wanted == self@.wanted.contains(name@));
        if wanted {
            match read_field_value(rest) {
                Reading::Done(json, used) => {
                    self.found.push((name.to_string(), json));
                    assert(self@.found == old(self)@.found.push((name@, json@)));
                    assert(self@.wanted == old(self)@.wanted);
                    Reading::Done((), used)
                },
                Reading::CutOff => Reading::CutOff,
                Reading::Bad => Reading::Bad,
            }
        } else {
            skip_field_value(rest)
        }
    }
}

/// The fields of the object `body` whose names are in `wanted`, in the order they stand in;
/// `None` when `body` is not one JSON object.
pub open spec fn gathered(body: Seq<u8>, wanted: Set<Seq<char>>) -> Option<Seq<(Seq<char>, Tree)>> {
    match whole_object_read::<Gathered>(body, Gathering { wanted, found: Seq::empty() }) {
        Reading::Done(s, _) => Some(s.found),
        _ => None,
    }
}

/// Reads the fields of `body` whose names are in `wanted`.
pub fn gather(body: &[u8], wanted: Vec<String>) -> (r: Option<Vec<(String, Json)>>)
    ensures
        match r {
            Some(found) => gathered(body@, name_set(wanted@)) == Some(fields_of(found@)),
            None => gathered(body@, name_set(wanted@)) is None,
        },
{
    let mut sink = Gathered { wanted, found: Vec::new() };
    assert(sink@.found == Seq::<(Seq<char>, Tree)>::empty());
    match read_whole_object(&mut sink, body) {
        Reading::Done(_, _) => Some(sink.found),
        _ => None,
    }
}

/// Whether `gap` has nothing but spaces, tabs, line feeds and carriage returns.
pub open spec fn all_blank(gap: Seq<u8>) -> bool {
    forall|i: int|
        0 <= i < gap.len() ==> #[trigger] gap[i] == 32 || gap[i] == 9 || gap[i] == 10 || gap[i]
            == 13
}

/// Blanks are skipped up to the first byte that is none, and no other byte is.
pub proof fn blanks_alone_are_skipped(gap: Seq<u8>, rest: Seq<u8>)
    requires
        all_blank(gap),
        rest.len() > 0 ==> rest[0] != 32 && rest[0] != 9 && rest[0] != 10 && rest[0] != 13,
    ensures
        blanks(gap + rest) == gap.len(),
    decreases gap.len(),
{
    let all = gap + rest;
    if gap.len() > 0 {
        assert(all[0] == gap[0]);
        assert(all.skip(1) == gap.skip(1) + rest);
        assert forall|i: int| 0 <= i < gap.skip(1).len() implies #[trigger] gap.skip(1)[i] == 32
            || gap.skip(1)[i] == 9 || gap.skip(1)[i] == 10 || gap.skip(1)[i] == 13 by {
            assert(gap.skip(1)[i] == gap[i + 1]);
        }
        blanks_alone_are_skipped(gap.skip(1), rest);
    } else {
        assert(all == rest);
    }
}

/// An object starts with a brace, whatever blanks stand in front of it.
pub proof fn object_starts_with_a_brace<S: FieldSink>(gap: Seq<u8>, rest: Seq<u8>, s: S::V)
    requires
        all_blank(gap),
    ensures
        object_read::<S>(gap + seq![0x7bu8] + rest, s) == after(
            gap.len() as int + 1,
            fields_read::<S>(rest, true, s),
        ),
{
    let input = gap + seq![0x7bu8] + rest;
    assert(input == gap + (seq![0x7bu8] + rest));
    blanks_alone_are_skipped(gap, seq![0x7bu8] + rest);
    assert(input.skip(gap.len() as int + 1) == rest);
}

/// The first field of an object starts with its name, whatever blanks stand in front of it; what
/// follows its value is read as further fields.
pub proof fn first_field_is_read<S: FieldSink>(
    gap: Seq<u8>,
    text: Seq<u8>,
    s: S::V,
    name: Seq<char>,
    length: usize,
    next: S::V,
    used: usize,
)
    requires
        all_blank(gap),
        gap.len() + text.len() <= usize::MAX,
        text.len() > 0,
        text[0] == 0x22,
        string_read(text) == Reading::Done(name, length),
        0 < length + used <= text.len(),
        S::step(s, name, text.skip(length as int)) == Reading::Done(next, used),
    ensures
        fields_read::<S>(gap + text, true, s) == after(
            gap.len() + length + used,
            fields_read::<S>(text.skip(length + used), false, next),
        ),
{
    let rest = gap + text;
    let at = gap.len() as int;
    blanks_alone_are_skipped(gap, text);
    assert(rest[at] == text[0]);
    assert(rest.skip(at) == text);
    assert(rest.skip(at + length) == text.skip(length as int));
    assert(rest.skip(at + length + used) == text.skip(length + used));
}

/// Every further field stands behind a comma, whatever blanks stand around that.
pub proof fn further_field_is_read<S: FieldSink>(
    gap: Seq<u8>,
    other: Seq<u8>,
    text: Seq<u8>,
    s: S::V,
    name: Seq<char>,
    length: usize,
    next: S::V,
    used: usize,
)
    requires
        all_blank(gap),
        all_blank(other),
        gap.len() + 1 + other.len() + text.len() <= usize::MAX,
        text.len() > 0,
        text[0] == 0x22,
        string_read(text) == Reading::Done(name, length),
        0 < length + used <= text.len(),
        S::step(s, name, text.skip(length as int)) == Reading::Done(next, used),
    ensures
        fields_read::<S>(gap + seq![0x2cu8] + other + text, false, s) == after(
            gap.len() + 1 + other.len() + length + used,
            fields_read::<S>(text.skip(length + used), false, next),
        ),
{
    let rest = gap + seq![0x2cu8] + other + text;
    let from = gap.len() as int;
    let at = from + 1 + other.len();
    assert(rest == gap + (seq![0x2cu8] + (other + text)));
    blanks_alone_are_skipped(gap, seq![0x2cu8] + (other + text));
    assert(rest[from] == 0x2c);
    assert(rest.skip(from + 1) == other + text);
    blanks_alone_are_skipped(other, text);
    assert(rest[at] == text[0]);
    assert(rest.skip(at) == text);
    assert(rest.skip(at + length) == text.skip(length as int));
    assert(rest.skip(at + length + used) == text.skip(length + used));
}

/// An object ends with a brace, whatever blanks stand in front of it; where it is over nothing
/// more of it is read.
pub proof fn object_ends_with_a_brace<S: FieldSink>(
    gap: Seq<u8>,
    rest: Seq<u8>,
    first: bool,
    s: S::V,
)
    requires
        all_blank(gap),
        gap.len() < usize::MAX,
    ensures
        fields_read::<S>(gap + seq![0x7du8] + rest, first, s) == Reading::Done(
            s,
            (gap.len() + 1) as usize,
        ),
{
    let input = gap + seq![0x7du8] + rest;
    assert(input == gap + (seq![0x7du8] + rest));
    blanks_alone_are_skipped(gap, seq![0x7du8] + rest);
    assert(input[gap.len() as int] == 0x7d);
}

/// Blanks alone leave it open how an object goes on. A first field that does not start with a
/// quotation mark, a further one without a comma, and a comma without a field behind it make it
/// unreadable.
pub proof fn stray_bytes_are_refused<S: FieldSink>(
    gap: Seq<u8>,
    other: Seq<u8>,
    b: u8,
    rest: Seq<u8>,
    s: S::V,
)
    requires
        all_blank(gap),
        all_blank(other),
        b != 32 && b != 9 && b != 10 && b != 13,
    ensures
        fields_read::<S>(gap, true, s) is CutOff,
        fields_read::<S>(gap, false, s) is CutOff,
        b != 0x22 && b != 0x7d ==> fields_read::<S>(gap + seq![b] + rest, true, s) is Bad,
        b != 0x2c && b != 0x7d ==> fields_read::<S>(gap + seq![b] + rest, false, s) is Bad,
        fields_read::<S>(gap + seq![0x2cu8] + other, false, s) is CutOff,
        b != 0x22 ==> fields_read::<S>(gap + seq![0x2cu8] + other + seq![b] + rest, false, s) is Bad,
{
    let at = gap.len() as int;
    blanks_alone_are_skipped(gap, Seq::empty());
    assert(gap + Seq::<u8>::empty() == gap);
    let one = gap + seq![b] + rest;
    assert(one == gap + (seq![b] + rest));
    blanks_alone_are_skipped(gap, seq![b] + rest);
    assert(one[at] == b);
    let comma = gap + seq![0x2cu8] + other;
    assert(comma == gap + (seq![0x2cu8] + other));
    blanks_alone_are_skipped(gap, seq![0x2cu8] + other);
    assert(comma.skip(at + 1) == other);
    blanks_alone_are_skipped(other, Seq::empty());
    assert(other + Seq::<u8>::empty() == other);
    let two = gap + seq![0x2cu8] + other + seq![b] + rest;
    assert(two == gap + (seq![0x2cu8] + (other + (seq![b] + rest))));
    blanks_alone_are_skipped(gap, seq![0x2cu8] + (other + (seq![b] + rest)));
    assert(two.skip(at + 1) == other + (seq![b] + rest));
    blanks_alone_are_skipped(other, seq![b] + rest);
    assert(two[at + 1 + other.len()] == b);
}

/// A colon stands between a name and its value, whatever blanks stand in front of it.
pub proof fn colon_comes_before_the_value(gap: Seq<u8>, b: u8, rest: Seq<u8>)
    requires
        all_blank(gap),
        gap.len() < usize::MAX,
        b != 32 && b != 9 && b != 10 && b != 13,
    ensures
        colon_read(gap) is CutOff,
        b == 0x3a ==> colon_read(gap + seq![b] + rest) == Reading::Done(
            (),
            (gap.len() + 1) as usize,
        ) && behind_colon(gap + seq![b] + rest) == rest,
        b != 0x3a ==> colon_read(gap + seq![b] + rest) is Bad,
{
    blanks_alone_are_skipped(gap, Seq::empty());
    assert(gap + Seq::<u8>::empty() == gap);
    let all = gap + seq![b] + rest;
    assert(all == gap + (seq![b] + rest));
    blanks_alone_are_skipped(gap, seq![b] + rest);
    assert(all[gap.len() as int] == b);
    assert(all.skip(gap.len() as int + 1) == rest);
}

/// A body is one object with nothing but blanks behind it.
pub proof fn nothing_follows_the_object<S: FieldSink>(
    input: Seq<u8>,
    s: S::V,
    value: S::V,
    used: usize,
)
    requires
        object_read::<S>(input, s) == Reading::Done(value, used),
        used <= input.len(),
    ensures
        whole_object_read::<S>(input, s) == (if all_blank(input.skip(used as int)) {
            Reading::Done(value, used)
        } else {
            Reading::Bad
        }),
{
    let rest = input.skip(used as int);
    if all_blank(rest) {
        blanks_alone_are_skipped(rest, Seq::empty());
        assert(rest + Seq::<u8>::empty() == rest);
    } else {
        blanks_before_another(rest);
    }
}

/// Where a byte is no blank, the blanks end before it.
proof fn blanks_before_another(rest: Seq<u8>)
    requires
        !all_blank(rest),
    ensures
        0 <= blanks(rest) < rest.len(),
    decreases rest.len(),
{
    if blank(rest[0]) {
        let tail = rest.skip(1);
        if all_blank(tail) {
            assert forall|i: int| 0 <= i < rest.len() implies #[trigger] rest[i] == 32 || rest[i]
                == 9 || rest[i] == 10 || rest[i] == 13 by {
                if i > 0 {
                    assert(tail[i - 1] == rest[i]);
                }
            }
        }
        blanks_before_another(tail);
    }
}

/// Of the fields of a body those that are wanted are kept in their order, with their values as they
/// are read unless these are nested more than 126 levels deep, and every other field is passed over.
pub proof fn wanted_fields_are_kept(s: Gathering, name: Seq<char>, gap: Seq<u8>, value: Seq<u8>)
    requires
        all_blank(gap),
        gap.len() + 1 + value.len() <= usize::MAX,
    ensures
        ({
            let reading = Gathered::step(s, name, gap + seq![0x3au8] + value);
            if s.wanted.contains(name) {
                match value_read(value) {
                    Reading::Done(tree, used) => if deeper(tree, 126) {
                        reading is Bad
                    } else {
                        reading == Reading::Done(
                            Gathering { wanted: s.wanted, found: s.found.push((name, tree)) },
                            (gap.len() + 1 + used) as usize,
                        )
                    },
                    Reading::CutOff => reading is CutOff,
                    Reading::Bad => reading is Bad,
                }
            } else {
                match value_skipped(value) {
                    Reading::Done(_, used) => reading == Reading::Done(
                        s,
                        (gap.len() + 1 + used) as usize,
                    ),
                    Reading::CutOff => reading is CutOff,
                    Reading::Bad => reading is Bad,
                }
            }
        }),
{
    colon_comes_before_the_value(gap, 0x3a, value);
}

/// An object of one field is read as what that field makes of the state.
pub proof fn object_of_one_field<S: FieldSink>(
    field: Seq<u8>,
    s: S::V,
    name: Seq<char>,
    length: usize,
    next: S::V,
)
    requires
        field.len() + 2 <= usize::MAX,
        field.len() > 0,
        field[0] == 0x22,
        0 < length <= field.len(),
        string_read(field + seq![0x7du8]) == Reading::Done(name, length),
        S::step(s, name, (field + seq![0x7du8]).skip(length as int)) == Reading::Done(
            next,
            (field.len() - length) as usize,
        ),
    ensures
        whole_object_read::<S>(seq![0x7bu8] + field + seq![0x7du8], s) == Reading::Done(
            next,
            (field.len() + 2) as usize,
        ),
{
    let none = Seq::<u8>::empty();
    let text = field + seq![0x7du8];
    let all = seq![0x7bu8] + field + seq![0x7du8];
    let used = (field.len() - length) as usize;
    assert(none + text == text);
    assert(text[0] == field[0]);
    first_field_is_read::<S>(none, text, s, name, length, next, used);
    assert(text.skip(length + used) == none + seq![0x7du8] + none);
    object_ends_with_a_brace::<S>(none, none, false, next);
    object_starts_with_a_brace::<S>(none, text, s);
    assert(none + seq![0x7bu8] + text == all);
    assert(object_read::<S>(all, s) == Reading::Done(next, (field.len() + 2) as usize));
    assert(all.skip(all.len() as int) == none);
    nothing_follows_the_object::<S>(all, s, next, (field.len() + 2) as usize);
}

/// The fields that are gathered from a body are those that reading all of it keeps, and a body that
/// cannot be read to its end gives none.
pub proof fn fields_are_gathered_from_the_whole_body(body: Seq<u8>, wanted: Set<Seq<char>>)
    ensures
        match whole_object_read::<Gathered>(body, Gathering { wanted, found: Seq::empty() }) {
            Reading::Done(s, _) => gathered(body, wanted) == Some(s.found),
            Reading::CutOff => gathered(body, wanted) is None,
            Reading::Bad => gathered(body, wanted) is None,
        },
{
}

/// An item of an array stands at its start or behind a comma, whatever blanks stand around that; a
/// closing bracket ends it, but not behind a comma.
pub proof fn items_stand_behind_commas(
    gap: Seq<u8>,
    other: Seq<u8>,
    b: u8,
    rest: Seq<u8>,
)
    requires
        all_blank(gap),
        all_blank(other),
        gap.len() + 1 + other.len() < usize::MAX,
        b != 32 && b != 9 && b != 10 && b != 13,
    ensures
        item_ahead(gap, true) is CutOff,
        item_ahead(gap, false) is CutOff,
        item_ahead(gap + seq![0x5du8] + rest, true) == Reading::Done(false, gap.len() as usize),
        item_ahead(gap + seq![0x5du8] + rest, false) == Reading::Done(false, gap.len() as usize),
        b != 0x5d ==> item_ahead(gap + seq![b] + rest, true) == Reading::Done(
            true,
            gap.len() as usize,
        ),
        b != 0x5d && b != 0x2c ==> item_ahead(gap + seq![b] + rest, false) is Bad,
        item_ahead(gap + seq![0x2cu8] + other, false) is CutOff,
        item_ahead(gap + seq![0x2cu8] + other + seq![b] + rest, false) == (if b == 0x5d {
            Reading::Bad
        } else {
            Reading::Done(true, (gap.len() + 1 + other.len()) as usize)
        }),
        array_end(gap) is CutOff,
        array_end(gap + seq![b] + rest) == (if b == 0x5d {
            Reading::Done((), (gap.len() + 1) as usize)
        } else {
            Reading::Bad
        }),
{
    let at = gap.len() as int;
    blanks_alone_are_skipped(gap, Seq::empty());
    assert(gap + Seq::<u8>::empty() == gap);
    let end = gap + seq![0x5du8] + rest;
    assert(end == gap + (seq![0x5du8] + rest));
    blanks_alone_are_skipped(gap, seq![0x5du8] + rest);
    assert(end[at] == 0x5d);
    let one = gap + seq![b] + rest;
    assert(one == gap + (seq![b] + rest));
    blanks_alone_are_skipped(gap, seq![b] + rest);
    assert(one[at] == b);
    let comma = gap + seq![0x2cu8] + other;
    assert(comma == gap + (seq![0x2cu8] + other));
    blanks_alone_are_skipped(gap, seq![0x2cu8] + other);
    assert(comma.skip(at + 1) == other);
    blanks_alone_are_skipped(other, Seq::empty());
    assert(other + Seq::<u8>::empty() == other);
    let two = gap + seq![0x2cu8] + other + seq![b] + rest;
    assert(two == gap + (seq![0x2cu8] + (other + (seq![b] + rest))));
    blanks_alone_are_skipped(gap, seq![0x2cu8] + (other + (seq![b] + rest)));
    assert(two.skip(at + 1) == other + (seq![b] + rest));
    blanks_alone_are_skipped(other, seq![b] + rest);
    assert(two[at + 1 + other.len()] == b);
}

/// What is not an object is not read as one: it is unreadable, or may yet go on.
pub proof fn other_values_are_no_objects<S: FieldSink>(gap: Seq<u8>, b: u8, rest: Seq<u8>, s: S::V)
    requires
        all_blank(gap),
        b != 32 && b != 9 && b != 10 && b != 13 && b != 0x7b,
    ensures
        object_read::<S>(gap, s) is CutOff,
        object_read::<S>(gap + seq![b] + rest, s) is Bad || (b != 0x5b && value_read(
            gap + seq![b] + rest,
        ) is CutOff && object_read::<S>(gap + seq![b] + rest, s) is CutOff),
{
    blanks_alone_are_skipped(gap, Seq::empty());
    assert(gap + Seq::<u8>::empty() == gap);
    let one = gap + seq![b] + rest;
    assert(one == gap + (seq![b] + rest));
    blanks_alone_are_skipped(gap, seq![b] + rest);
    assert(one[gap.len() as int] == b);
}

/// A name or a value that cannot be read spoils the object, and one that is cut off leaves it open,
/// whatever follows and whatever was read before it.
pub proof fn unreadable_field_spoils_the_object<S: FieldSink>(
    gap: Seq<u8>,
    other: Seq<u8>,
    text: Seq<u8>,
    s: S::V,
)
    requires
        all_blank(gap),
        all_blank(other),
        gap.len() + 1 + other.len() + text.len() <= usize::MAX,
        text.len() > 0,
        text[0] == 0x22,
        string_read(text) matches Reading::Done(_, length) ==> length <= text.len(),
    ensures
        ({
            let first = fields_read::<S>(gap + text, true, s);
            let further = fields_read::<S>(gap + seq![0x2cu8] + other + text, false, s);
            match string_read(text) {
                Reading::Bad => first is Bad && further is Bad,
                Reading::CutOff => first is CutOff && further is CutOff,
                Reading::Done(name, length) => match S::step(s, name, text.skip(length as int)) {
                    Reading::Bad => first is Bad && further is Bad,
                    Reading::CutOff => first is CutOff && further is CutOff,
                    Reading::Done(_, _) => true,
                },
            }
        }),
{
    let rest = gap + text;
    let at = gap.len() as int;
    blanks_alone_are_skipped(gap, text);
    assert(rest[at] == text[0]);
    assert(rest.skip(at) == text);
    let behind = gap + seq![0x2cu8] + other + text;
    let to = at + 1 + other.len();
    assert(behind == gap + (seq![0x2cu8] + (other + text)));
    blanks_alone_are_skipped(gap, seq![0x2cu8] + (other + text));
    assert(behind[at] == 0x2c);
    assert(behind.skip(at + 1) == other + text);
    blanks_alone_are_skipped(other, text);
    assert(behind[to] == text[0]);
    assert(behind.skip(to) == text);
    if let Reading::Done(_, length) = string_read(text) {
        assert(rest.skip(at + length) =~= text.skip(length as int));
        assert(behind.skip(to + length) =~= text.skip(length as int));
    }
}

} // verus!
