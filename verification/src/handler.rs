//! The dispatcher: runs a decoded command against the store.

use vstd::prelude::*;
use vstd::slice::slice_subrange;
use vstd::string::*;
use vstd::utf8::{decode_utf8_encode_utf8, valid_utf8};
pub use crate::datastore::Datastore;
use crate::datastore::{bulk_of, ok_reply, StoreState};
use crate::text::{lossy_text, text_of_bytes};
use crate::value::{views, Value, ValueView};

verus! {

/// The lower-case form of an ASCII letter; any other byte as it is.
pub open spec fn lower(b: u8) -> u8 {
    if 0x41 <= b <= 0x5a {
        (b + 0x20) as u8
    } else {
        b
    }
}

/// Whether `name` spells `word` when the case of its letters is ignored.
pub open spec fn names_command(name: Seq<u8>, word: Seq<char>) -> bool {
    &&& name.len() == word.len()
    &&& forall|i: int| 0 <= i < name.len() ==> lower(#[trigger] name[i]) == word[i] as u8
}

/// The reply to a command with the wrong number of arguments.
pub open spec fn arity_error() -> ValueView {
    ValueView::Error("Wrong number of arguments"@)
}

/// The reply to a command whose name or argument is of the wrong type.
pub open spec fn type_error() -> ValueView {
    ValueView::Error("Unknown value type"@)
}

/// The reply to a command without a name.
pub open spec fn empty_error() -> ValueView {
    ValueView::Error("Empty command"@)
}

/// The reply to a name that is no command; `name` is the name read as text.
pub open spec fn unknown_command(name: Seq<char>) -> ValueView {
    ValueView::Error("Unknown command: "@ + name)
}

/// Whether each of `args` carries a string payload.
pub open spec fn all_text(args: Seq<ValueView>) -> bool {
    forall|i: int| 0 <= i < args.len() ==> (#[trigger] args[i]).is_text()
}

/// The reply to `PING`: `PONG` without an argument, and one argument as it
/// came.
pub open spec fn ping_reply(args: Seq<ValueView>) -> ValueView {
    if args.len() == 0 {
        ValueView::Str("PONG"@)
    } else if args.len() == 1 {
        args[0]
    } else {
        arity_error()
    }
}

/// The reply to a store command that takes `arity` arguments: an error
/// where their number or type is wrong, and else `done`, with the store
/// that goes with each.
pub open spec fn checked(
    args: Seq<ValueView>,
    arity: nat,
    store: StoreState,
    done: (ValueView, StoreState),
) -> (ValueView, StoreState) {
    if args.len() != arity {
        (arity_error(), store)
    } else if !all_text(args) {
        (type_error(), store)
    } else {
        done
    }
}

/// What a command does: its reply, and the store after it.
///
/// The first of `values` names the command; the rest are its arguments. A
/// command that is refused leaves the store as it was.
pub open spec fn dispatch(values: Seq<ValueView>, store: StoreState) -> (ValueView, StoreState) {
    if values.len() == 0 {
        (empty_error(), store)
    } else if !(values[0] is Bulk) {
        (type_error(), store)
    } else {
        let name = values[0]->Bulk_0;
        let args = values.skip(1);
        if names_command(name, "ping"@) {
            (ping_reply(args), store)
        } else if names_command(name, "set"@) {
            checked(args, 2, store, (ok_reply(), store.set(args[0].text(), args[1].text())))
        } else if names_command(name, "get"@) {
            checked(args, 1, store, (store.get(args[0].text()), store))
        } else if names_command(name, "hset"@) {
            checked(
                args,
                3,
                store,
                (ok_reply(), store.hset(args[0].text(), args[1].text(), args[2].text())),
            )
        } else if names_command(name, "hget"@) {
            checked(args, 2, store, (store.hget(args[0].text(), args[1].text()), store))
        } else if names_command(name, "hgetall"@) {
            checked(args, 1, store, (store.hgetall(args[0].text()), store))
        } else {
            (unknown_command(lossy_text(name)), store)
        }
    }
}

/// The six command words are told apart by their length and first letters.
proof fn lemma_command_words()
    ensures
        "ping"@.len() == 4 && "ping"@[0] == 'p',
        "set"@.len() == 3 && "set"@[0] == 's',
        "get"@.len() == 3 && "get"@[0] == 'g',
        "hset"@.len() == 4 && "hset"@[0] == 'h' && "hset"@[1] == 's',
        "hget"@.len() == 4 && "hget"@[0] == 'h' && "hget"@[1] == 'g',
        "hgetall"@.len() == 7,
{
    reveal_strlit("ping");
    reveal_strlit("set");
    reveal_strlit("get");
    reveal_strlit("hset");
    reveal_strlit("hget");
    reveal_strlit("hgetall");
}

/// A name spells at most one command word.
pub proof fn lemma_one_command(name: Seq<u8>)
    ensures
        names_command(name, "set"@) ==> !names_command(name, "ping"@),
        names_command(name, "get"@) ==> !names_command(name, "ping"@) && !names_command(
            name,
            "set"@,
        ),
        names_command(name, "hset"@) ==> !names_command(name, "ping"@) && !names_command(
            name,
            "set"@,
        ) && !names_command(name, "get"@),
        names_command(name, "hget"@) ==> !names_command(name, "ping"@) && !names_command(
            name,
            "set"@,
        ) && !names_command(name, "get"@) && !names_command(name, "hset"@),
        names_command(name, "hgetall"@) ==> !names_command(name, "ping"@) && !names_command(
            name,
            "set"@,
        ) && !names_command(name, "get"@) && !names_command(name, "hset"@) && !names_command(
            name,
            "hget"@,
        ),
{
    lemma_command_words();
    if name.len() >= 2 {
        assert(names_command(name, "set"@) ==> lower(name[0]) == 0x73);
        assert(names_command(name, "get"@) ==> lower(name[0]) == 0x67);
        assert(names_command(name, "hset"@) ==> lower(name[0]) == 0x68 && lower(name[1]) == 0x73);
        assert(names_command(name, "hget"@) ==> lower(name[0]) == 0x68 && lower(name[1]) == 0x67);
    }
}

/// Set, then get: after `SET key value` is answered with `OK`, `GET key`
/// is answered with the text of `value` as a bulk string, whatever the store
/// held before. A value that came as a bulk string of valid UTF-8 comes back
/// as it was.
pub proof fn lemma_set_then_get(
    store: StoreState,
    set: Seq<u8>,
    get: Seq<u8>,
    key: ValueView,
    value: ValueView,
)
    requires
        names_command(set, "set"@),
        names_command(get, "get"@),
        key.is_text(),
        value.is_text(),
    ensures
        ({
            let (first, after) = dispatch(seq![ValueView::Bulk(set), key, value], store);
            &&& first == ok_reply()
            &&& dispatch(seq![ValueView::Bulk(get), key], after) == (bulk_of(value.text()), after)
        }),
        value matches ValueView::Bulk(bytes) && valid_utf8(bytes) ==> bulk_of(value.text())
            == value,
{
    lemma_one_command(set);
    lemma_one_command(get);
    let write = seq![ValueView::Bulk(set), key, value];
    let read = seq![ValueView::Bulk(get), key];
    assert(all_text(write.skip(1)));
    assert(all_text(read.skip(1)));
    if let ValueView::Bulk(bytes) = value {
        if valid_utf8(bytes) {
            decode_utf8_encode_utf8(bytes);
        }
    }
}

/// The store after `SET key value` has run for each of `values` in turn.
pub open spec fn after_sets(
    store: StoreState,
    set: Seq<u8>,
    key: ValueView,
    values: Seq<ValueView>,
) -> StoreState
    decreases values.len(),
{
    if values.len() == 0 {
        store
    } else {
        dispatch(
            seq![ValueView::Bulk(set), key, values.last()],
            after_sets(store, set, key, values.drop_last()),
        ).1
    }
}

/// The last write wins: when several values are set under one key, in
/// whatever order the writes are taken, `GET key` is answered with one of
/// the values written, whole: the one that was taken last.
pub proof fn lemma_last_set_wins(
    store: StoreState,
    set: Seq<u8>,
    get: Seq<u8>,
    key: ValueView,
    values: Seq<ValueView>,
)
    requires
        names_command(set, "set"@),
        names_command(get, "get"@),
        key.is_text(),
        values.len() > 0,
        all_text(values),
    ensures
        dispatch(seq![ValueView::Bulk(get), key], after_sets(store, set, key, values)).0
            == bulk_of(values.last().text()),
{
    lemma_set_then_get(
        after_sets(store, set, key, values.drop_last()),
        set,
        get,
        key,
        values.last(),
    );
}

/// Set, then get, of a field: after `HSET key field value` is answered
/// with `OK`, `HGET key field` is answered with the text of `value` as a
/// bulk string, whatever the store held before.
pub proof fn lemma_hset_then_hget(
    store: StoreState,
    hset: Seq<u8>,
    hget: Seq<u8>,
    key: ValueView,
    field: ValueView,
    value: ValueView,
)
    requires
        names_command(hset, "hset"@),
        names_command(hget, "hget"@),
        key.is_text(),
        field.is_text(),
        value.is_text(),
    ensures
        ({
            let (first, after) = dispatch(seq![ValueView::Bulk(hset), key, field, value], store);
            &&& first == ok_reply()
            &&& dispatch(seq![ValueView::Bulk(hget), key, field], after) == (
                bulk_of(value.text()),
                after,
            )
        }),
{
    lemma_one_command(hset);
    lemma_one_command(hget);
    assert(all_text(seq![ValueView::Bulk(hset), key, field, value].skip(1)));
    assert(all_text(seq![ValueView::Bulk(hget), key, field].skip(1)));
}

/// A key that was never set is answered with null.
pub proof fn lemma_get_missing(store: StoreState, get: Seq<u8>, key: ValueView)
    requires
        names_command(get, "get"@),
        key.is_text(),
        !store.strings.contains_key(key.text()),
    ensures
        dispatch(seq![ValueView::Bulk(get), key], store) == (ValueView::Null, store),
{
    lemma_one_command(get);
    assert(all_text(seq![ValueView::Bulk(get), key].skip(1)));
}

/// Hash flatten: after `HSET key f1 v1` and `HSET key f2 v2` on a key
/// without a hash, `HGETALL key` is answered with exactly the two pairs, in
/// the order of the writes; where the two fields are the same text, with
/// the one pair of the field and the later value.
pub proof fn lemma_hset_twice_then_hgetall(
    store: StoreState,
    hset: Seq<u8>,
    hgetall: Seq<u8>,
    key: ValueView,
    f1: ValueView,
    v1: ValueView,
    f2: ValueView,
    v2: ValueView,
)
    requires
        names_command(hset, "hset"@),
        names_command(hgetall, "hgetall"@),
        key.is_text(),
        f1.is_text(),
        v1.is_text(),
        f2.is_text(),
        v2.is_text(),
        !store.hashes.contains_key(key.text()),
    ensures
        ({
            let (first, once) = dispatch(seq![ValueView::Bulk(hset), key, f1, v1], store);
            let (second, twice) = dispatch(seq![ValueView::Bulk(hset), key, f2, v2], once);
            let (third, last) = dispatch(seq![ValueView::Bulk(hgetall), key], twice);
            &&& first == ok_reply()
            &&& second == ok_reply()
            &&& last == twice
            &&& third == ValueView::Array(
                if f1.text() == f2.text() {
                    seq![bulk_of(f1.text()), bulk_of(v2.text())]
                } else {
                    seq![
                        bulk_of(f1.text()),
                        bulk_of(v1.text()),
                        bulk_of(f2.text()),
                        bulk_of(v2.text()),
                    ]
                },
            )
        }),
{
    lemma_one_command(hset);
    lemma_one_command(hgetall);
    let write1 = seq![ValueView::Bulk(hset), key, f1, v1];
    let write2 = seq![ValueView::Bulk(hset), key, f2, v2];
    let read = seq![ValueView::Bulk(hgetall), key];
    assert(all_text(write1.skip(1)));
    assert(all_text(write2.skip(1)));
    assert(all_text(read.skip(1)));
    let once = store.hset(key.text(), f1.text(), v1.text());
    let twice = once.hset(key.text(), f2.text(), v2.text());
    let hash = twice.hashes[key.text()];
    if f1.text() == f2.text() {
        assert(hash.flatten() =~= seq![bulk_of(f1.text()), bulk_of(v2.text())]);
    } else {
        assert(hash.flatten() =~= seq![
            bulk_of(f1.text()),
            bulk_of(v1.text()),
            bulk_of(f2.text()),
            bulk_of(v2.text()),
        ]);
    }
}

/// A key without a hash is answered with null.
pub proof fn lemma_hgetall_missing(store: StoreState, hgetall: Seq<u8>, key: ValueView)
    requires
        names_command(hgetall, "hgetall"@),
        key.is_text(),
        !store.hashes.contains_key(key.text()),
    ensures
        dispatch(seq![ValueView::Bulk(hgetall), key], store) == (ValueView::Null, store),
{
    lemma_one_command(hgetall);
    assert(all_text(seq![ValueView::Bulk(hgetall), key].skip(1)));
}

/// A command leaves a well-formed store well formed.
pub proof fn lemma_dispatch_wf(values: Seq<ValueView>, store: StoreState)
    requires
        store.wf(),
    ensures
        dispatch(values, store).1.wf(),
{
    if values.len() > 0 && values[0] is Bulk {
        let args = values.skip(1);
        if args.len() == 3 {
            store.hash(args[0].text()).lemma_put_wf(args[1].text(), args[2].text());
        }
    }
}

/// Tells whether `name` spells the lower-case ASCII `word` in any case.
fn names(name: &[u8], word: &str) -> (same: bool)
    requires
        word.is_ascii(),
    ensures
        same == names_command(name@, word@),
{
    broadcast use vstd::string::is_ascii_spec_bytes;

    let letters = word.as_bytes();
    if name.len() != letters.len() {
        return false;
    }
    let mut i: usize = 0;
    while i < name.len()
        invariant
            i <= name@.len(),
            name@.len() == word@.len(),
            letters@.len() == word@.len(),
            forall|j: int| 0 <= j < letters@.len() ==> letters@[j] == word@[j] as u8,
            forall|j: int| 0 <= j < i ==> lower(#[trigger] name@[j]) == word@[j] as u8,
        decreases name@.len() - i,
    {
        let b = name[i];
        let folded: u8 = if 0x41 <= b && b <= 0x5a {
            b + 0x20
        } else {
            b
        };
        if folded != letters[i] {
            return false;
        }
        i += 1;
    }
    true
}

/// The error reply to `name`, which is no command.
pub fn unknown_command_reply(name: &str) -> (reply: Value)
    ensures
        reply@ == unknown_command(name@),
{
    Value::Error(String::from_str("Unknown command: ").concat(name))
}

/// An error reply that carries `message`.
fn error(message: &str) -> (reply: Value)
    ensures
        reply@ == ValueView::Error(message@),
{
    Value::Error(String::from_str(message))
}

/// Tells whether each of `args` carries a string payload.
fn have_text(args: &[Value]) -> (all: bool)
    ensures
        all == all_text(views(args@)),
        all ==> forall|i: int| 0 <= i < args@.len() ==> (#[trigger] args@[i])@.is_text(),
{
    let mut i: usize = 0;
    while i < args.len()
        invariant
            i <= args@.len(),
            forall|j: int| 0 <= j < i ==> (#[trigger] views(args@)[j]).is_text(),
            forall|j: int| 0 <= j < i ==> (#[trigger] args@[j])@.is_text(),
        decreases args@.len() - i,
    {
        if !args[i].is_text() {
            assert(!views(args@)[i as int].is_text());
            return false;
        }
        i += 1;
    }
    true
}

/// Answers `PING`.
fn ping(args: &[Value]) -> (reply: Value)
    ensures
        reply@ == ping_reply(views(args@)),
{
    if args.len() == 0 {
        Value::Str(String::from_str("PONG"))
    } else if args.len() == 1 {
        args[0].clone()
    } else {
        error("Wrong number of arguments")
    }
}

/// Refuses `args` where their number is not `arity` or one of them carries
/// no string.
fn refuse(args: &[Value], arity: usize) -> (refusal: Option<Value>)
    ensures
        match refusal {
            Some(reply) => (args@.len() != arity || !all_text(views(args@))) && forall|
                store: StoreState,
                done: (ValueView, StoreState),
            |
                checked(views(args@), arity as nat, store, done) == (reply@, store),
            None => args@.len() == arity && all_text(views(args@)) && forall|i: int|
                0 <= i < args@.len() ==> (#[trigger] args@[i])@.is_text(),
        },
{
    if args.len() != arity {
        Some(error("Wrong number of arguments"))
    } else if !have_text(args) {
        Some(error("Unknown value type"))
    } else {
        None
    }
}

/// Runs the command that `values_arr` holds against `datastore` and gives
/// the reply. Every input has a reply: a command that cannot run is
/// answered with an error value.
pub fn handler(values_arr: Vec<Value>, datastore: &mut Datastore) -> (reply: Value)
    requires
        old(datastore).wf(),
    ensures
        final(datastore).wf(),
        (reply@, final(datastore)@) == dispatch(views(values_arr@), old(datastore)@),
{
    if values_arr.len() == 0 {
        return error("Empty command");
    }
    let args = slice_subrange(values_arr.as_slice(), 1, values_arr.len());
    proof {
        reveal_strlit("ping");
        reveal_strlit("set");
        reveal_strlit("get");
        reveal_strlit("hset");
        reveal_strlit("hget");
        reveal_strlit("hgetall");
        assert(views(args@) =~= views(values_arr@).skip(1));
    }
    match &values_arr[0] {
        Value::Bulk(command) => {
            let name = command.as_slice();
            if names(name, "ping") {
                ping(args)
            } else if names(name, "set") {
                match refuse(args, 2) {
                    Some(reply) => reply,
                    None => datastore.set(args[0].unwrap_str(), args[1].unwrap_str()),
                }
            } else if names(name, "get") {
                match refuse(args, 1) {
                    Some(reply) => reply,
                    None => datastore.get(args[0].unwrap_str().as_str()),
                }
            } else if names(name, "hset") {
                match refuse(args, 3) {
                    Some(reply) => reply,
                    None => datastore.hset(
                        args[0].unwrap_str(),
                        args[1].unwrap_str(),
                        args[2].unwrap_str(),
                    ),
                }
            } else if names(name, "hget") {
                match refuse(args, 2) {
                    Some(reply) => reply,
                    None => datastore.hget(
                        args[0].unwrap_str().as_str(),
                        args[1].unwrap_str().as_str(),
                    ),
                }
            } else if names(name, "hgetall") {
                match refuse(args, 1) {
                    Some(reply) => reply,
                    None => datastore.hgetall(args[0].unwrap_str().as_str()),
                }
            } else {
                assert(name@.subrange(0, name@.len() as int) =~= name@);
                let text = text_of_bytes(name, 0, name.len());
                unknown_command_reply(text.as_str())
            }
        },
        _ => error("Unknown value type"),
    }
}

} // verus!
