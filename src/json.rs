//! The JSON bodies of multi-record answers: records are copied verbatim,
//! separated by commas, inside brackets or braces. Records are expected to be
//! JSON already; nothing here checks that.

use crate::database::Record;
use crate::mmav::seqs_of;
use vstd::prelude::*;
use vstd::utf8::encode_utf8;

verus! {

/// The byte sequences of `items`, separated by commas.
pub open spec fn joined(items: Seq<Seq<u8>>) -> Seq<u8>
    decreases items.len(),
{
    if items.len() == 0 {
        Seq::empty()
    } else if items.len() == 1 {
        items[0]
    } else {
        joined(items.drop_last()) + seq![44u8] + items.last()
    }
}

/// `[item,item,...]`.
pub open spec fn array_body(items: Seq<Seq<u8>>) -> Seq<u8> {
    seq![91u8] + joined(items) + seq![93u8]
}

/// `"key":value`, with the key in UTF-8.
pub open spec fn member(key: Seq<char>, value: Seq<u8>) -> Seq<u8> {
    seq![34u8] + encode_utf8(key) + seq![34u8, 58u8] + value
}

/// `{member,member,...}`.
pub open spec fn object_body(members: Seq<Seq<u8>>) -> Seq<u8> {
    seq![123u8] + joined(members) + seq![125u8]
}

/// Appends the bytes of `b` to `out`.
fn append(out: &mut Vec<u8>, b: &[u8])
    ensures
        final(out)@ == old(out)@ + b@,
{
    let mut i: usize = 0;
    while i < b.len()
        invariant
            i <= b@.len(),
            out@ == old(out)@ + b@.subrange(0, i as int),
        decreases b@.len() - i,
    {
        out.push(b[i]);
        i = i + 1;
        proof {
            assert(out@ =~= old(out)@ + b@.subrange(0, i as int));
        }
    }
    proof {
        assert(b@.subrange(0, b@.len() as int) =~= b@);
    }
}

proof fn lemma_joined_push(items: Seq<Seq<u8>>, x: Seq<u8>)
    ensures
        joined(items.push(x)) == if items.len() == 0 {
            x
        } else {
            joined(items) + seq![44u8] + x
        },
{
    assert(items.push(x).drop_last() =~= items);
}

/// Writes `[a,b,...]` for the records `items`.
pub fn json_array(items: &Vec<Vec<u8>>) -> (r: Vec<u8>)
    ensures
        r@ == array_body(seqs_of(items@)),
{
    let mut out: Vec<u8> = Vec::new();
    out.push(91);
    let mut i: usize = 0;
    while i < items.len()
        invariant
            i <= items@.len(),
            out@ == seq![91u8] + joined(seqs_of(items@).subrange(0, i as int)),
        decreases items@.len() - i,
    {
        let ghost before = out@;
        if i > 0 {
            out.push(44);
        }
        append(&mut out, items[i].as_slice());
        proof {
            let s = seqs_of(items@);
            assert(s.subrange(0, i + 1) =~= s.subrange(0, i as int).push(items@[i as int]@));
            lemma_joined_push(s.subrange(0, i as int), items@[i as int]@);
            assert(out@ =~= seq![91u8] + joined(s.subrange(0, i + 1)));
        }
        i = i + 1;
    }
    out.push(93);
    proof {
        assert(seqs_of(items@).subrange(0, items@.len() as int) =~= seqs_of(items@));
        assert(out@ =~= array_body(seqs_of(items@)));
    }
    out
}

/// The members that `json_object` writes for `records`.
pub open spec fn record_members(records: Seq<Record>) -> Seq<Seq<u8>> {
    Seq::new(records.len(), |i: int| member(records[i].id@, records[i].value@))
}

/// Writes `"key":value` for one key and value.
fn write_member(out: &mut Vec<u8>, key: &String, value: &[u8])
    ensures
        final(out)@ == old(out)@ + member(key@, value@),
{
    out.push(34);
    append(out, key.as_str().as_bytes());
    out.push(34);
    out.push(58);
    append(out, value);
    proof {
        assert(final(out)@ =~= old(out)@ + member(key@, value@));
    }
}

/// Writes `{"key":value,...}` for `records`.
pub fn json_object(records: &Vec<Record>) -> (r: Vec<u8>)
    ensures
        r@ == object_body(record_members(records@)),
{
    let mut out: Vec<u8> = Vec::new();
    out.push(123);
    let mut i: usize = 0;
    while i < records.len()
        invariant
            i <= records@.len(),
            out@ == seq![123u8] + joined(record_members(records@).subrange(0, i as int)),
        decreases records@.len() - i,
    {
        if i > 0 {
            out.push(44);
        }
        write_member(&mut out, &records[i].id, records[i].value.as_slice());
        proof {
            let s = record_members(records@);
            assert(s.subrange(0, i + 1) =~= s.subrange(0, i as int).push(s[i as int]));
            lemma_joined_push(s.subrange(0, i as int), s[i as int]);
            assert(out@ =~= seq![123u8] + joined(s.subrange(0, i + 1)));
        }
        i = i + 1;
    }
    out.push(125);
    proof {
        assert(record_members(records@).subrange(0, records@.len() as int) =~= record_members(
            records@,
        ));
        assert(out@ =~= object_body(record_members(records@)));
    }
    out
}

/// The members that `json_object_of_lists` writes for `lists`.
pub open spec fn list_members(lists: Seq<(String, Vec<Vec<u8>>)>) -> Seq<Seq<u8>> {
    Seq::new(lists.len(), |i: int| member(lists[i].0@, array_body(seqs_of(lists[i].1@))))
}

/// Writes `{"key":[a,b,...],...}` for `lists`.
pub fn json_object_of_lists(lists: &Vec<(String, Vec<Vec<u8>>)>) -> (r: Vec<u8>)
    ensures
        r@ == object_body(list_members(lists@)),
{
    let mut out: Vec<u8> = Vec::new();
    out.push(123);
    let mut i: usize = 0;
    while i < lists.len()
        invariant
            i <= lists@.len(),
            out@ == seq![123u8] + joined(list_members(lists@).subrange(0, i as int)),
        decreases lists@.len() - i,
    {
        if i > 0 {
            out.push(44);
        }
        let body = json_array(&lists[i].1);
        write_member(&mut out, &lists[i].0, body.as_slice());
        proof {
            let s = list_members(lists@);
            assert(s.subrange(0, i + 1) =~= s.subrange(0, i as int).push(s[i as int]));
            lemma_joined_push(s.subrange(0, i as int), s[i as int]);
            assert(out@ =~= seq![123u8] + joined(s.subrange(0, i + 1)));
        }
        i = i + 1;
    }
    out.push(125);
    proof {
        assert(list_members(lists@).subrange(0, lists@.len() as int) =~= list_members(lists@));
        assert(out@ =~= object_body(list_members(lists@)));
    }
    out
}

} // verus!
