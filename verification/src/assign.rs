use vstd::prelude::*;

use vstd::pervasive::VecAdditionalExecFns;

use crate::config::{
    contains_char, entries_view, keys_wf, lemma_entries_view_update, ParseState, EDIT_KEY,
};
use crate::entry::{EntryView, LauncherEntry};

verus! {

/// The fixed assignment alphabet: all twenty-six lowercase letters, ordered
/// by approximate typing ergonomics.
pub open spec fn alphabet() -> Seq<char> {
    seq![
        'a', 'o', 'e', 'u', 'h', 't', 'n', 's', 'i', 'd', 'p', 'y', 'f', 'g', 'c', 'r', 'l',
        'q', 'j', 'k', 'x', 'b', 'm', 'w', 'v', 'z',
    ]
}

/// The letters of the alphabet from position `pos` on that are not in the
/// reserved set, in alphabet order.
pub open spec fn avail_from(pos: int, reserved: Seq<char>) -> Seq<char>
    decreases alphabet().len() - pos,
{
    if pos < 0 || pos >= alphabet().len() {
        Seq::empty()
    } else if reserved.contains(alphabet()[pos]) {
        avail_from(pos + 1, reserved)
    } else {
        seq![alphabet()[pos]] + avail_from(pos + 1, reserved)
    }
}

/// The letters eligible for automatic assignment, in the order the cursor
/// meets them.
pub open spec fn avail(reserved: Seq<char>) -> Seq<char> {
    avail_from(0, reserved)
}

/// How many of the first `i` entries lack a key.
pub open spec fn keyless_before(entries: Seq<EntryView>, i: int) -> int
    decreases i,
{
    if i <= 0 {
        0
    } else {
        keyless_before(entries, i - 1) + (if entries[i - 1].character is None {
            1int
        } else {
            0int
        })
    }
}

/// How many entries lack a key.
pub open spec fn keyless_count(entries: Seq<EntryView>) -> int {
    keyless_before(entries, entries.len() as int)
}

/// What assignment does to the entry at position `j`: the command is kept, an
/// explicit key is kept, and a missing key becomes the next available letter
/// — the one whose rank among the available letters equals the number of
/// keyless entries before `j`.
pub open spec fn assigned_entry(
    olds: Seq<EntryView>,
    reserved: Seq<char>,
    j: int,
    new: EntryView,
) -> bool {
    &&& new.command == olds[j].command
    &&& new.character == (match olds[j].character {
        Some(c) => Some(c),
        None => Some(avail(reserved)[keyless_before(olds, j)]),
    })
}

/// Assignment of the whole entry sequence.
pub open spec fn assigned_all(
    olds: Seq<EntryView>,
    reserved: Seq<char>,
    news: Seq<EntryView>,
) -> bool {
    &&& news.len() == olds.len()
    &&& forall|j: int|
        0 <= j < olds.len() ==> assigned_entry(olds, reserved, j, #[trigger] news[j])
}

proof fn lemma_keyless_before_mono(entries: Seq<EntryView>, i: int, j: int)
    requires
        i <= j,
    ensures
        keyless_before(entries, i) <= keyless_before(entries, j),
    decreases j - i,
{
    if i < j {
        lemma_keyless_before_mono(entries, i, j - 1);
    }
}

proof fn lemma_avail_from_pos(pos: int, reserved: Seq<char>)
    requires
        avail_from(pos, reserved).len() > 0,
    ensures
        0 <= pos < alphabet().len(),
{
}

/// The assignment alphabet as a vector.
fn alphabet_chars() -> (v: Vec<char>)
    ensures
        v@ == alphabet(),
{
    let mut v: Vec<char> = Vec::new();
    v.push('a');
    v.push('o');
    v.push('e');
    v.push('u');
    v.push('h');
    v.push('t');
    v.push('n');
    v.push('s');
    v.push('i');
    v.push('d');
    v.push('p');
    v.push('y');
    v.push('f');
    v.push('g');
    v.push('c');
    v.push('r');
    v.push('l');
    v.push('q');
    v.push('j');
    v.push('k');
    v.push('x');
    v.push('b');
    v.push('m');
    v.push('w');
    v.push('v');
    v.push('z');
    proof {
        assert(v@ =~= alphabet());
    }
    v
}

/// Give every keyless entry the next key from the alphabet, skipping letters
/// in the reserved set; entries that already hold a key, and every command
/// text, are left as they are.  One cursor runs over the alphabet for the
/// whole pass, never rewinding, so no letter is handed out twice.
pub fn assign_keys(entries: &mut Vec<LauncherEntry>, reserved_keys: &Vec<char>)
    requires
        keyless_count(entries_view(old(entries)@)) <= avail(reserved_keys@).len(),
    ensures
        assigned_all(
            entries_view(old(entries)@),
            reserved_keys@,
            entries_view(final(entries)@),
        ),
{
    let ghost olds = entries_view(entries@);
    let alpha = alphabet_chars();
    let mut cursor: usize = 0;
    let mut j: usize = 0;
    while j < entries.len()
        invariant
            alpha@ == alphabet(),
            j <= entries@.len(),
            entries@.len() == olds.len(),
            olds == entries_view(old(entries)@),
            keyless_count(olds) <= avail(reserved_keys@).len(),
            forall|t: int|
                0 <= t < j ==> assigned_entry(
                    olds,
                    reserved_keys@,
                    t,
                    #[trigger] entries_view(entries@)[t],
                ),
            forall|t: int| j <= t < entries@.len() ==> entries@[t] == old(entries)@[t],
            avail_from(cursor as int, reserved_keys@) == avail(reserved_keys@).skip(
                keyless_before(olds, j as int),
            ),
        decreases entries@.len() - j,
    {
        let ghost k = keyless_before(olds, j as int);
        proof {
            lemma_keyless_before_mono(olds, 0, j as int);
            assert(k >= 0);
            assert(entries@[j as int] == old(entries)@[j as int]);
            assert(olds[j as int] == entries@[j as int]@);
        }
        if entries[j].character.is_none() {
            proof {
                assert(olds[j as int].character is None);
                assert(keyless_before(olds, j as int + 1) == k + 1);
                lemma_keyless_before_mono(olds, j as int + 1, olds.len() as int);
                assert(k + 1 <= keyless_count(olds));
                assert(avail(reserved_keys@).skip(k).len() >= 1);
                lemma_avail_from_pos(cursor as int, reserved_keys@);
            }
            while contains_char(reserved_keys, alpha[cursor])
                invariant
                    alpha@ == alphabet(),
                    avail_from(cursor as int, reserved_keys@) == avail(reserved_keys@).skip(
                        k,
                    ),
                    avail(reserved_keys@).skip(k).len() >= 1,
                    0 <= (cursor as int) < alphabet().len(),
                decreases alphabet().len() - cursor,
            {
                proof {
                    assert(reserved_keys@.contains(alphabet()[cursor as int]));
                    assert(avail_from(cursor as int, reserved_keys@) == avail_from(
                        cursor as int + 1,
                        reserved_keys@,
                    ));
                }
                cursor = cursor + 1;
                proof {
                    lemma_avail_from_pos(cursor as int, reserved_keys@);
                }
            }
            let c: char = alpha[cursor];
            proof {
                assert(!reserved_keys@.contains(alphabet()[cursor as int]));
                assert(avail_from(cursor as int, reserved_keys@) == seq![
                    alphabet()[cursor as int],
                ] + avail_from(cursor as int + 1, reserved_keys@));
                assert(avail(reserved_keys@)[k] == avail(reserved_keys@).skip(k)[0]);
                assert(c == avail(reserved_keys@)[k]);
            }
            let cmd: String = entries[j].command.clone();
            let ghost before = entries@;
            let e = LauncherEntry { character: Some(c), command: cmd };
            let ghost ge = e;
            entries.set(j, e);
            proof {
                lemma_entries_view_update(before, j as int, ge);
                assert(entries_view(entries@)[j as int] == ge@);
                assert(assigned_entry(olds, reserved_keys@, j as int, ge@));
                // the cursor moves past the letter just assigned
                assert(avail_from(cursor as int + 1, reserved_keys@) =~= avail(
                    reserved_keys@,
                ).skip(k + 1)) by {
                    let tail = avail_from(cursor as int + 1, reserved_keys@);
                    let whole = avail(reserved_keys@);
                    assert forall|t: int| 0 <= t < tail.len() implies tail[t] == whole.skip(
                        k + 1,
                    )[t] by {
                        assert(tail[t] == avail_from(cursor as int, reserved_keys@)[t + 1]);
                        assert(whole.skip(k)[t + 1] == whole[k + 1 + t]);
                    }
                    assert(tail.len() == whole.skip(k).len() - 1);
                }
            }
            cursor = cursor + 1;
        } else {
            proof {
                assert(olds[j as int].character is Some);
                assert(keyless_before(olds, j as int + 1) == k);
                assert(assigned_entry(
                    olds,
                    reserved_keys@,
                    j as int,
                    entries_view(entries@)[j as int],
                ));
            }
        }
        j = j + 1;
    }
}

/// How many entries of the vector lack a key.
fn count_keyless(entries: &Vec<LauncherEntry>) -> (n: usize)
    ensures
        n == keyless_count(entries_view(entries@)),
{
    let ghost ev = entries_view(entries@);
    let mut n: usize = 0;
    let mut j: usize = 0;
    while j < entries.len()
        invariant
            ev == entries_view(entries@),
            j <= entries@.len(),
            n <= j,
            n == keyless_before(ev, j as int),
        decreases entries@.len() - j,
    {
        proof {
            assert(ev[j as int] == entries@[j as int]@);
        }
        if entries[j].character.is_none() {
            n = n + 1;
        }
        j = j + 1;
    }
    n
}

/// How many letters of the alphabet are not in the reserved set.
fn count_available(reserved_keys: &Vec<char>) -> (n: usize)
    ensures
        n == avail(reserved_keys@).len(),
{
    let alpha = alphabet_chars();
    let mut n: usize = 0;
    let mut pos: usize = 0;
    while pos < alpha.len()
        invariant
            alpha@ == alphabet(),
            pos <= alphabet().len(),
            n <= pos,
            avail(reserved_keys@).len() == n + avail_from(pos as int, reserved_keys@).len(),
        decreases alphabet().len() - pos,
    {
        if !contains_char(reserved_keys, alpha[pos]) {
            n = n + 1;
        }
        pos = pos + 1;
    }
    proof {
        assert(avail_from(pos as int, reserved_keys@).len() == 0);
    }
    n
}

/// Assign keys only if the unreserved alphabet suffices for every keyless
/// entry, and say whether it did.  When it does not — the alphabet has only
/// twenty-six letters — nothing is changed and the caller treats the run as
/// failed.
pub fn try_assign_keys(entries: &mut Vec<LauncherEntry>, reserved_keys: &Vec<char>) -> (ok:
    bool)
    ensures
        ok == (keyless_count(entries_view(old(entries)@)) <= avail(reserved_keys@).len()),
        ok ==> assigned_all(
            entries_view(old(entries)@),
            reserved_keys@,
            entries_view(final(entries)@),
        ),
        !ok ==> final(entries)@ == old(entries)@,
{
    let kc = count_keyless(entries);
    let ac = count_available(reserved_keys);
    if kc <= ac {
        assign_keys(entries, reserved_keys);
        true
    } else {
        false
    }
}

/// No letter that `avail_from` offers is in the reserved set.
pub proof fn lemma_avail_from_unreserved(pos: int, reserved: Seq<char>)
    ensures
        forall|t: int|
            0 <= t < avail_from(pos, reserved).len() ==> !reserved.contains(
                #[trigger] avail_from(pos, reserved)[t],
            ),
    decreases alphabet().len() - pos,
{
    if pos < 0 || pos >= alphabet().len() {
    } else if reserved.contains(alphabet()[pos]) {
        lemma_avail_from_unreserved(pos + 1, reserved);
        assert forall|t: int| 0 <= t < avail_from(pos, reserved).len() implies !reserved
            .contains(avail_from(pos, reserved)[t]) by {
            assert(avail_from(pos, reserved)[t] == avail_from(pos + 1, reserved)[t]);
        }
    } else {
        lemma_avail_from_unreserved(pos + 1, reserved);
        assert forall|t: int| 0 <= t < avail_from(pos, reserved).len() implies !reserved
            .contains(avail_from(pos, reserved)[t]) by {
            if t == 0 {
                assert(avail_from(pos, reserved)[0] == alphabet()[pos]);
            } else {
                assert(avail_from(pos, reserved)[t] == avail_from(pos + 1, reserved)[t - 1]);
            }
        }
    }
}

/// Every letter that `avail_from` offers stands in the alphabet at or after
/// `pos`.
proof fn lemma_avail_from_positions(pos: int, reserved: Seq<char>, t: int)
    requires
        0 <= t < avail_from(pos, reserved).len(),
    ensures
        exists|q: int|
            pos <= q < alphabet().len() && alphabet()[q] == avail_from(pos, reserved)[t],
    decreases alphabet().len() - pos,
{
    lemma_avail_from_pos(pos, reserved);
    if reserved.contains(alphabet()[pos]) {
        lemma_avail_from_positions(pos + 1, reserved, t);
        let q = choose|q: int|
            pos + 1 <= q < alphabet().len() && alphabet()[q] == avail_from(
                pos + 1,
                reserved,
            )[t];
        assert(pos <= q < alphabet().len() && alphabet()[q] == avail_from(pos, reserved)[t]);
    } else if t == 0 {
        assert(avail_from(pos, reserved)[0] == alphabet()[pos]);
    } else {
        lemma_avail_from_positions(pos + 1, reserved, t - 1);
        let q = choose|q: int|
            pos + 1 <= q < alphabet().len() && alphabet()[q] == avail_from(
                pos + 1,
                reserved,
            )[t - 1];
        assert(avail_from(pos, reserved)[t] == avail_from(pos + 1, reserved)[t - 1]);
        assert(pos <= q < alphabet().len() && alphabet()[q] == avail_from(pos, reserved)[t]);
    }
}

#[verifier::rlimit(60)]
proof fn lemma_alphabet_no_dup()
    ensures
        alphabet().no_duplicates(),
{
    assert forall|i: int, t: int|
        0 <= i < alphabet().len() && 0 <= t < alphabet().len() && i != t implies alphabet()[i]
        != alphabet()[t] by {
        assert(alphabet().len() == 26);
    }
}

/// The letters that `avail_from` offers are pairwise distinct.
pub proof fn lemma_avail_from_no_dup(pos: int, reserved: Seq<char>)
    ensures
        avail_from(pos, reserved).no_duplicates(),
    decreases alphabet().len() - pos,
{
    lemma_alphabet_no_dup();
    if pos < 0 || pos >= alphabet().len() {
    } else if reserved.contains(alphabet()[pos]) {
        lemma_avail_from_no_dup(pos + 1, reserved);
    } else {
        lemma_avail_from_no_dup(pos + 1, reserved);
        let whole = avail_from(pos, reserved);
        let tail = avail_from(pos + 1, reserved);
        assert forall|x: int, y: int|
            0 <= x < whole.len() && 0 <= y < whole.len() && x != y implies whole[x] != whole[y] by {
            if x == 0 || y == 0 {
                let other: int = if x == 0 {
                    y
                } else {
                    x
                };
                assert(whole[0] == alphabet()[pos]);
                assert(whole[other] == tail[other - 1]);
                lemma_avail_from_positions(pos + 1, reserved, other - 1);
                let q = choose|q: int|
                    pos + 1 <= q < alphabet().len() && alphabet()[q] == tail[other - 1];
                assert(alphabet()[q] != alphabet()[pos]);
            } else {
                assert(whole[x] == tail[x - 1]);
                assert(whole[y] == tail[y - 1]);
            }
        }
    }
}

/// Law: one assignment pass never gives two keyless entries the same key,
/// and never gives a keyless entry a key from the reserved set.
pub proof fn lemma_assigned_keys_unique(
    olds: Seq<EntryView>,
    reserved: Seq<char>,
    news: Seq<EntryView>,
    i: int,
    j: int,
)
    requires
        assigned_all(olds, reserved, news),
        keyless_count(olds) <= avail(reserved).len(),
        0 <= i < olds.len(),
        0 <= j < olds.len(),
        i != j,
        olds[i].character is None,
        olds[j].character is None,
    ensures
        news[i].character != news[j].character,
        !reserved.contains(news[i].character->0),
{
    let ri = keyless_before(olds, i);
    let rj = keyless_before(olds, j);
    assert(keyless_before(olds, i + 1) == ri + 1);
    assert(keyless_before(olds, j + 1) == rj + 1);
    lemma_keyless_before_mono(olds, i + 1, olds.len() as int);
    lemma_keyless_before_mono(olds, j + 1, olds.len() as int);
    assert(0 <= ri < avail(reserved).len()) by {
        lemma_keyless_before_mono(olds, 0, i);
    }
    assert(0 <= rj < avail(reserved).len()) by {
        lemma_keyless_before_mono(olds, 0, j);
    }
    if i < j {
        lemma_keyless_before_mono(olds, i + 1, j);
        assert(ri < rj);
    } else {
        lemma_keyless_before_mono(olds, j + 1, i);
        assert(rj < ri);
    }
    lemma_avail_from_no_dup(0, reserved);
    lemma_avail_from_unreserved(0, reserved);
    assert(assigned_entry(olds, reserved, i, news[i]));
    assert(assigned_entry(olds, reserved, j, news[j]));
}

/// Law: in the final interactive entry list — the parsed entries with the
/// edit entry appended and every missing key assigned — every entry holds a
/// key, and no two entries hold the same one.
pub proof fn lemma_launcher_keys_unique(
    st: ParseState,
    edit_cmd: Seq<char>,
    news: Seq<EntryView>,
    i: int,
    j: int,
)
    requires
        keys_wf(st),
        assigned_all(
            st.entries.push((EntryView { character: Some(EDIT_KEY), command: edit_cmd })),
            st.reserved,
            news,
        ),
        keyless_count(
            st.entries.push((EntryView { character: Some(EDIT_KEY), command: edit_cmd })),
        ) <= avail(st.reserved).len(),
        0 <= i < news.len(),
        0 <= j < news.len(),
        i != j,
    ensures
        news[i].character is Some,
        news[i].character != news[j].character,
{
    let olds = st.entries.push(EntryView { character: Some(EDIT_KEY), command: edit_cmd });
    let n = st.entries.len() as int;
    assert(assigned_entry(olds, st.reserved, i, news[i]));
    assert(assigned_entry(olds, st.reserved, j, news[j]));
    if olds[i].character is None && olds[j].character is None {
        lemma_assigned_keys_unique(olds, st.reserved, news, i, j);
    } else if olds[i].character is Some && olds[j].character is Some {
        if i < n && j < n {
            assert(olds[i] == st.entries[i]);
            assert(olds[j] == st.entries[j]);
            assert(st.entries[i].character != st.entries[j].character);
        } else if i < n {
            assert(olds[j].character == Some(EDIT_KEY));
            assert(olds[i] == st.entries[i]);
            assert(st.entries[i].character->0 != EDIT_KEY);
        } else {
            assert(olds[i].character == Some(EDIT_KEY));
            assert(olds[j] == st.entries[j]);
            assert(st.entries[j].character->0 != EDIT_KEY);
        }
    } else {
        let a: int = if olds[i].character is None {
            i
        } else {
            j
        };
        let b: int = if olds[i].character is None {
            j
        } else {
            i
        };
        let ra = keyless_before(olds, a);
        assert(keyless_before(olds, a + 1) == ra + 1);
        lemma_keyless_before_mono(olds, 0, a);
        lemma_keyless_before_mono(olds, a + 1, olds.len() as int);
        assert(0 <= ra < avail(st.reserved).len());
        lemma_avail_from_unreserved(0, st.reserved);
        assert(!st.reserved.contains(avail(st.reserved)[ra]));
        if b < n {
            assert(olds[b] == st.entries[b]);
            assert(st.reserved.contains(st.entries[b].character->0));
        } else {
            assert(olds[b].character == Some(EDIT_KEY));
            assert(st.reserved[0] == EDIT_KEY);
            assert(st.reserved.contains(EDIT_KEY));
        }
        assert(news[a].character == Some(avail(st.reserved)[ra]));
        assert(news[b].character == olds[b].character);
        assert(news[a].character != news[b].character);
    }
}

} // verus!
