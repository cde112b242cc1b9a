//! What the codec accepts: the payloads of messages, and nothing else.

use vstd::prelude::*;

use crate::bytes;
use crate::raft::rpc::MessageView;
use crate::raft::transport::codec;

verus! {

proof fn u32_was_written(s: Seq<u8>)
    ensures
        codec::parse_u32(s) matches Ok((x, rest)) ==> s == bytes::le32(x) + rest,
{
    if s.len() >= 4 {
        bytes::le_of_number(s.subrange(0, 4));
        bytes::capacities();
        assert(s =~= s.subrange(0, 4) + s.skip(4));
    }
}

proof fn u64_was_written(s: Seq<u8>)
    ensures
        codec::parse_u64(s) matches Ok((x, rest)) ==> s == bytes::le64(x) + rest,
{
    if s.len() >= 8 {
        bytes::le_of_number(s.subrange(0, 8));
        bytes::capacities();
        assert(s =~= s.subrange(0, 8) + s.skip(8));
    }
}

proof fn bool_was_written(s: Seq<u8>)
    ensures
        codec::parse_bool(s) matches Ok((b, rest)) ==> s == codec::flag(b) + rest,
{
    if let Ok((b, rest)) = codec::parse_bool(s) {
        assert(s =~= codec::flag(b) + rest);
    }
}

proof fn optional_was_written(s: Seq<u8>)
    ensures
        codec::parse_optional(s) matches Ok((x, rest)) ==> s == codec::optional_bytes(x) + rest,
{
    if let Ok((x, rest)) = codec::parse_optional(s) {
        u64_was_written(s.skip(1));
        assert(s =~= seq![s[0]] + s.skip(1));
        assert(s =~= codec::optional_bytes(x) + rest);
    }
}

proof fn string_was_written(s: Seq<u8>)
    ensures
        codec::parse_string(s) matches Ok((x, rest)) ==> s == codec::string_bytes(x) + rest
            && x.len() <= u64::MAX,
{
    if let Ok((x, rest)) = codec::parse_string(s) {
        u64_was_written(s);
        assert(s =~= codec::string_bytes(x) + rest);
    }
}

proof fn two_fields_were_written(s: Seq<u8>)
    ensures
        codec::parse_fields(s, 2) matches Ok((f, rest)) ==> f.len() == 2 && s == bytes::le64(f[0])
            + bytes::le64(f[1]) + rest,
{
    reveal_with_fuel(codec::parse_fields, 3);
    if let Ok((f, rest)) = codec::parse_fields(s, 2) {
        u64_was_written(s);
        u64_was_written(s.skip(8));
        assert(s =~= bytes::le64(f[0]) + bytes::le64(f[1]) + rest);
    }
}

proof fn four_fields_were_written(s: Seq<u8>)
    ensures
        codec::parse_fields(s, 4) matches Ok((f, rest)) ==> f.len() == 4 && s == bytes::le64(f[0])
            + bytes::le64(f[1]) + bytes::le64(f[2]) + bytes::le64(f[3]) + rest,
{
    reveal_with_fuel(codec::parse_fields, 3);
    if let Ok((f, rest)) = codec::parse_fields(s, 4) {
        let (g, middle) = codec::parse_fields(s, 2)->Ok_0;
        two_fields_were_written(s);
        u64_was_written(middle);
        u64_was_written(middle.skip(8));
        assert(f[0] == g[0] && f[1] == g[1]);
        assert(s =~= bytes::le64(f[0]) + bytes::le64(f[1]) + bytes::le64(f[2]) + bytes::le64(f[3])
            + rest);
    }
}

proof fn entry_was_written(s: Seq<u8>)
    ensures
        codec::parse_entry(s) matches Ok((e, rest)) ==> s == codec::entry_bytes(e) + rest
            && e.command.len() <= u64::MAX,
{
    if let Ok((e, rest)) = codec::parse_entry(s) {
        two_fields_were_written(s);
        let middle = codec::parse_fields(s, 2)->Ok_0.1;
        string_was_written(middle);
        let last = codec::parse_string(middle)->Ok_0.1;
        assert(last =~= seq![e.entry_type.tag()] + rest);
        assert(s =~= codec::entry_bytes(e) + rest);
    }
}

proof fn entry_list_was_written(s: Seq<u8>, n: nat)
    ensures
        codec::parse_entry_list(s, n) matches Ok((entries, rest)) ==> {
            &&& entries.len() == n
            &&& s == codec::entries_bytes(entries) + rest
            &&& forall|i: int|
                0 <= i < n ==> (#[trigger] entries[i]).command.len() <= u64::MAX
        },
    decreases n,
{
    if n == 0 {
        assert(s =~= Seq::<u8>::empty() + s);
    } else if let Ok((entries, rest)) = codec::parse_entry_list(s, n) {
        entry_list_was_written(s, (n - 1) as nat);
        let (before, last) = codec::parse_entry_list(s, (n - 1) as nat)->Ok_0;
        entry_was_written(last);
        assert(entries.drop_last() =~= before);
        assert(s =~= codec::entries_bytes(entries) + rest);
    }
}

proof fn append_was_written(s: Seq<u8>)
    ensures
        codec::parse_append_req(s) matches Ok((m, rest)) ==> bytes::le32(2) + s
            == codec::payload_of(m) + rest && codec::lengths_fit(m),
{
    if let Ok((m, rest)) = codec::parse_append_req(s) {
        four_fields_were_written(s);
        let listed = codec::parse_fields(s, 4)->Ok_0.1;
        u64_was_written(listed);
        let (count, list) = codec::parse_u64(listed)->Ok_0;
        entry_list_was_written(list, count as nat);
        let last = codec::parse_entry_list(list, count as nat)->Ok_0.1;
        u64_was_written(last);
        assert(bytes::le32(2) + s =~= codec::payload_of(m) + rest);
    }
}

proof fn install_was_written(s: Seq<u8>)
    ensures
        codec::parse_install_req(s) matches Ok((m, rest)) ==> bytes::le32(4) + s
            == codec::payload_of(m) + rest && codec::lengths_fit(m),
{
    if let Ok((m, rest)) = codec::parse_install_req(s) {
        four_fields_were_written(s);
        let middle = codec::parse_fields(s, 4)->Ok_0.1;
        string_was_written(middle);
        let last = codec::parse_string(middle)->Ok_0.1;
        string_was_written(last);
        assert(bytes::le32(4) + s =~= codec::payload_of(m) + rest);
    }
}

proof fn variant_was_written(variant: u32, s: Seq<u8>)
    ensures
        codec::parse_variant(variant, s) matches Ok((m, rest)) ==> bytes::le32(variant) + s
            == codec::payload_of(m) + rest && codec::lengths_fit(m),
{
    if let Ok((m, rest)) = codec::parse_variant(variant, s) {
        if variant == 0 {
            four_fields_were_written(s);
            bool_was_written(codec::parse_fields(s, 4)->Ok_0.1);
        } else if variant == 2 {
            append_was_written(s);
        } else if variant == 4 {
            install_was_written(s);
        } else {
            u64_was_written(s);
            let middle = s.skip(8);
            if variant == 1 {
                bool_was_written(middle);
                bool_was_written(middle.skip(1));
            } else if variant == 3 {
                bool_was_written(middle);
                optional_was_written(middle.skip(1));
            }
        }
        if variant != 2 && variant != 4 {
            assert(bytes::le32(variant) + s =~= codec::payload_of(m) + rest);
        }
    }
}

/// What is read from a payload is the message whose payload it is: no other
/// bytes pass for that message, and bytes that are no message's payload are
/// refused.
pub proof fn only_payloads_are_read(s: Seq<u8>)
    ensures
        codec::message_of(s) matches Ok(m) ==> codec::payload_of(m) == s && codec::lengths_fit(m),
        codec::message_of(s) is Err ==> forall|m: MessageView|
            codec::lengths_fit(m) ==> #[trigger] codec::payload_of(m) != s,
{
    match codec::message_of(s) {
        Ok(m) => {
            u32_was_written(s);
            let (variant, body) = codec::parse_u32(s)->Ok_0;
            variant_was_written(variant, body);
            let rest = codec::parse_variant(variant, body)->Ok_0.1;
            assert(codec::payload_of(m) + rest =~= codec::payload_of(m));
        },
        Err(_) => {
            assert forall|m: MessageView| codec::lengths_fit(m) implies
                #[trigger] codec::payload_of(m) != s by {
                codec::messages_read_back(m);
            }
        },
    }
}

/// Other messages have other payloads.
pub proof fn messages_have_their_own_payloads(a: MessageView, b: MessageView)
    requires
        codec::lengths_fit(a),
        codec::lengths_fit(b),
        a != b,
    ensures
        codec::payload_of(a) != codec::payload_of(b),
{
    codec::messages_read_back(a);
    codec::messages_read_back(b);
}

} // verus!
