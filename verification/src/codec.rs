//! Node identifier codec.
//!
//! A node identifier pairs a vault identifier with the node's relative
//! path from the vault root, written `vaultId:relativePath`. Decoding
//! splits on the first colon; an identifier without a colon is a legacy
//! opaque identifier with no embedded vault reference.
use crate::text::concat3;
use crate::text::find_char;
use vstd::prelude::*;

verus! {

/// The text form of an identifier that carries a vault reference.
pub open spec fn encoded(vault_id: Seq<char>, rel_path: Seq<char>) -> Seq<char> {
    vault_id + seq![':'] + rel_path
}

/// No colon anywhere in `s`.
pub open spec fn colon_free(s: Seq<char>) -> bool {
    forall|i: int| 0 <= i < s.len() ==> s[i] != ':'
}

/// `i` is the position of the first colon of `s`.
pub open spec fn is_first_colon(s: Seq<char>, i: int) -> bool {
    0 <= i < s.len() && s[i] == ':' && (forall|j: int| 0 <= j < i ==> s[j] != ':')
}

/// What decoding returns: the part before the first colon and the part
/// after it, or nothing when the identifier has no colon.
pub open spec fn spec_decode(id: Seq<char>) -> Option<(Seq<char>, Seq<char>)> {
    if exists|i: int| is_first_colon(id, i) {
        let i = choose|i: int| is_first_colon(id, i);
        Option::Some((id.subrange(0, i), id.subrange(i + 1, id.len() as int)))
    } else {
        Option::None
    }
}

/// Encodes a vault identifier and a relative path into one identifier.
pub fn encode_node_id(vault_id: &str, rel_path: &str) -> (r: String)
    ensures
        r@ == encoded(vault_id@, rel_path@),
{
    proof {
        reveal_strlit(":");
    }
    let r = concat3(vault_id, ":", rel_path);
    proof {
        assert(r@ =~= encoded(vault_id@, rel_path@));
    }
    r
}

/// Splits an identifier on its first colon into the vault identifier and
/// the relative path, or returns nothing for a legacy opaque identifier.
pub fn decode_node_id(id: &str) -> (r: Option<(String, String)>)
    ensures
        match r {
            Option::Some(p) => spec_decode(id@) == Option::Some((p.0@, p.1@)),
            Option::None => spec_decode(id@) is None && colon_free(id@),
        },
{
    match find_char(id, ':') {
        Option::Some(i) => {
            let n = id.unicode_len();
            let vault_part = id.substring_char(0, i).to_owned();
            let path_part = id.substring_char(i + 1, n).to_owned();
            proof {
                assert(is_first_colon(id@, i as int));
                let j = choose|j: int| is_first_colon(id@, j);
                assert(is_first_colon(id@, j));
                assert(j == i as int);
            }
            Option::Some((vault_part, path_part))
        },
        Option::None => Option::None,
    }
}

/// Round trip: decoding an encoded identifier gives the vault identifier
/// and the relative path back unchanged, for every vault identifier free
/// of colons and every relative path whatsoever.
pub proof fn lemma_codec_round_trip(vault_id: Seq<char>, rel_path: Seq<char>)
    requires
        colon_free(vault_id),
    ensures
        spec_decode(encoded(vault_id, rel_path)) == Option::Some((vault_id, rel_path)),
{
    let id = encoded(vault_id, rel_path);
    assert(id[vault_id.len() as int] == ':');
    assert(forall|j: int| 0 <= j < vault_id.len() ==> id[j] == vault_id[j]);
    assert(is_first_colon(id, vault_id.len() as int));
    let i = choose|i: int| is_first_colon(id, i);
    assert(is_first_colon(id, i));
    assert(i == vault_id.len() as int);
    assert(id.subrange(0, i) =~= vault_id);
    assert(id.subrange(i + 1, id.len() as int) =~= rel_path);
}

} // verus!
