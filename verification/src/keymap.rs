//! The keys of a mode, what each does, and the table of them in the README.
use vstd::prelude::*;
use crate::text::{owned, push_str};

verus! {

/// Keys that run one command, and what it does in words.
pub struct KeyBinding<C> {
    pub keys: Vec<&'static str>,
    pub command: C,
    pub description: &'static str,
}

pub open spec fn keys_view(keys: Seq<&'static str>) -> Seq<Seq<char>> {
    keys.map_values(|k: &'static str| k@)
}

pub open spec fn binding_view<C>(b: KeyBinding<C>) -> (Seq<Seq<char>>, C, Seq<char>) {
    (keys_view(b.keys@), b.command, b.description@)
}

pub open spec fn bindings_view<C>(bs: Seq<KeyBinding<C>>) -> Seq<(Seq<Seq<char>>, C, Seq<char>)> {
    bs.map_values(|b: KeyBinding<C>| binding_view(b))
}

/// A binding of one key.
pub fn binding<C>(key: &'static str, command: C, description: &'static str) -> (r: KeyBinding<C>)
    ensures
        binding_view(r) == (seq![key@], command, description@),
{
    let mut keys: Vec<&'static str> = Vec::new();
    keys.push(key);
    let r = KeyBinding { keys, command, description };
    assert(keys_view(r.keys@) =~= seq![key@]);
    r
}

/// The first two rows of a keymap table.
pub const TABLE_HEADER: &'static str = "| Key | Description |\n| --- | --- |\n";

/// The keys of a binding, each in backticks, separated by commas.
pub open spec fn quoted_keys(keys: Seq<Seq<char>>) -> Seq<char>
    decreases keys.len(),
{
    if keys.len() == 0 {
        Seq::empty()
    } else if keys.len() == 1 {
        "`"@ + keys[0] + "`"@
    } else {
        quoted_keys(keys.drop_last()) + ", `"@ + keys.last() + "`"@
    }
}

/// The row of a binding: its keys, then its description.
pub open spec fn row_spec<C>(b: (Seq<Seq<char>>, C, Seq<char>)) -> Seq<char> {
    "| "@ + quoted_keys(b.0) + " | "@ + b.2 + " |\n"@
}

pub open spec fn rows_spec<C>(bs: Seq<(Seq<Seq<char>>, C, Seq<char>)>) -> Seq<char>
    decreases bs.len(),
{
    if bs.len() == 0 {
        Seq::empty()
    } else {
        rows_spec(bs.drop_last()) + row_spec(bs.last())
    }
}

/// The Markdown table of a keymap: a header, then a row per binding.
pub open spec fn table_spec<C>(bs: Seq<(Seq<Seq<char>>, C, Seq<char>)>) -> Seq<char> {
    TABLE_HEADER@ + rows_spec(bs)
}

fn push_row<C>(out: &mut String, b: &KeyBinding<C>)
    ensures
        final(out)@ == old(out)@ + row_spec(binding_view(*b)),
{
    push_str(out, "| ");
    let ghost start = out@;
    let ghost ks = keys_view(b.keys@);
    let mut i: usize = 0;
    proof {
        assert(ks.take(0) =~= Seq::<Seq<char>>::empty());
        assert(start =~= start + quoted_keys(ks.take(0)));
    }
    while i < b.keys.len()
        invariant
            i <= b.keys.len(),
            ks == keys_view(b.keys@),
            out@ == start + quoted_keys(ks.take(i as int)),
        decreases b.keys.len() - i,
    {
        let ghost before = out@;
        if i == 0 {
            push_str(out, "`");
        } else {
            push_str(out, ", `");
        }
        push_str(out, b.keys[i]);
        push_str(out, "`");
        proof {
            let t = ks.take(i + 1);
            assert(t.drop_last() =~= ks.take(i as int));
            assert(t.last() == b.keys@[i as int]@);
            if i == 0 {
                assert(t.len() == 1);
                assert(t[0] == b.keys@[0]@);
            }
            assert(out@ =~= start + quoted_keys(t));
        }
        i = i + 1;
    }
    proof {
        assert(ks.take(i as int) =~= ks);
    }
    push_str(out, " | ");
    push_str(out, b.description);
    push_str(out, " |\n");
}

/// The Markdown table of a keymap.
pub fn markdown<C>(keymap: &Vec<KeyBinding<C>>) -> (r: String)
    ensures
        r@ == table_spec(bindings_view(keymap@)),
{
    let mut out = owned(TABLE_HEADER);
    let ghost bs = bindings_view(keymap@);
    let mut i: usize = 0;
    proof {
        assert(bs.take(0) =~= Seq::<(Seq<Seq<char>>, C, Seq<char>)>::empty());
    }
    while i < keymap.len()
        invariant
            i <= keymap.len(),
            bs == bindings_view(keymap@),
            out@ == TABLE_HEADER@ + rows_spec(bs.take(i as int)),
        decreases keymap.len() - i,
    {
        push_row(&mut out, &keymap[i]);
        proof {
            let t = bs.take(i + 1);
            assert(t.drop_last() =~= bs.take(i as int));
            assert(t.last() == binding_view(keymap@[i as int]));
        }
        i = i + 1;
    }
    proof {
        assert(bs.take(i as int) =~= bs);
    }
    out
}

} // verus!
