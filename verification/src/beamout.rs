//! Beaming a ship out to, and in from, the account service: which parts
//! a saved ship keeps, and the addresses of the service's endpoints.
use vstd::prelude::*;
use crate::codec::{PartKind, push_char};

verus! {

/// A ship as saved by the account service: a part and what is attached
/// in each of its slots.
#[derive(Debug)]
pub struct RecursivePartDescription {
    pub kind: PartKind,
    pub attachments: Vec<Option<RecursivePartDescription>>,
}

impl RecursivePartDescription {
    /// A lone part of the given kind.
    pub fn from(kind: PartKind) -> (r: RecursivePartDescription)
        ensures
            r.kind == kind,
            r.attachments@.len() == 0,
    {
        RecursivePartDescription { kind, attachments: Vec::with_capacity(0) }
    }
}

/// `after` is `before` with every part that cannot beam out removed,
/// together with everything attached to it, at every depth.
pub open spec fn beamout_pruned(after: RecursivePartDescription, before: RecursivePartDescription) -> bool
    decreases before,
{
    &&& after.kind == before.kind
    &&& after.attachments@.len() == before.attachments@.len()
    &&& forall|i: int|
        0 <= i < before.attachments@.len() ==> match #[trigger] before.attachments@[i] {
            None => after.attachments@[i] is None,
            Some(b) => if b.kind == PartKind::Cargo {
                after.attachments@[i] is None
            } else {
                after.attachments@[i] matches Some(a) && beamout_pruned(a, b)
            },
        }
}

/// What the account service answers when a player beams in.
#[derive(Debug)]
pub struct BeaminResponse {
    pub is_admin: bool,
    pub beamout_token: String,
    pub layout: Option<RecursivePartDescription>,
}

fn prune(desc: RecursivePartDescription) -> (r: RecursivePartDescription)
    ensures
        beamout_pruned(r, desc),
    decreases desc,
{
    let ghost orig = desc;
    let RecursivePartDescription { kind, attachments } = desc;
    let mut attachments = attachments;
    let n = attachments.len();
    let mut out: Vec<Option<RecursivePartDescription>> = Vec::new();
    let mut i: usize = 0;
    while i < n
        invariant
            i <= n,
            n == orig.attachments@.len(),
            orig == desc,
            attachments@ == orig.attachments@.subrange(i as int, n as int),
            out@.len() == i,
            forall|j: int|
                0 <= j < i ==> match #[trigger] orig.attachments@[j] {
                    None => out@[j] is None,
                    Some(b) => if b.kind == PartKind::Cargo {
                        out@[j] is None
                    } else {
                        out@[j] matches Some(a) && beamout_pruned(a, b)
                    },
                },
        decreases n - i,
    {
        let attachment = attachments.remove(0);
        proof {
            assert(attachment == orig.attachments@[i as int]);
        }
        match attachment {
            None => out.push(None),
            Some(part) => {
                if !part.kind.can_beamout() {
                    out.push(None);
                } else {
                    proof {
                        assert(decreases_to!(orig => part));
                    }
                    let kept = prune(part);
                    out.push(Some(kept));
                }
            },
        }
        proof {
            assert(attachments@ =~= orig.attachments@.subrange(i + 1, n as int));
        }
        i = i + 1;
    }
    RecursivePartDescription { kind, attachments: out }
}

/// Removes from a ship about to be saved every part that cannot beam out
/// (cargo), with everything attached to it.
pub fn recurse_can_beamout(part: &mut RecursivePartDescription)
    ensures
        beamout_pruned(*final(part), *old(part)),
{
    let mut taken = RecursivePartDescription::from(part.kind);
    std::mem::swap(&mut taken, part);
    *part = prune(taken);
}

// ---------------------------------------------------------------- endpoint addresses

/// The placeholder in an endpoint address that a token replaces.
pub open spec fn placeholder() -> Seq<char> {
    seq!['^', '^', '^', '^']
}

pub open spec fn placeholder_at(s: Seq<char>, k: int) -> bool {
    0 <= k && k + 4 <= s.len() && s.subrange(k, k + 4) == placeholder()
}

/// `template` with its first placeholder replaced by `token`; unchanged
/// when it has none.
pub open spec fn fill_first(template: Seq<char>, token: Seq<char>) -> Seq<char> {
    if exists|k: int| placeholder_at(template, k) {
        let k = choose|k: int|
            placeholder_at(template, k) && forall|j: int| 0 <= j < k ==> !placeholder_at(template, j);
        template.subrange(0, k) + token + template.subrange(k + 4, template.len() as int)
    } else {
        template
    }
}

pub(crate) fn push_all(out: &mut String, s: &Vec<char>, from: usize, to: usize)
    requires
        from <= to <= s@.len(),
    ensures
        final(out)@ == old(out)@ + s@.subrange(from as int, to as int),
{
    let mut i = from;
    while i < to
        invariant
            from <= i <= to,
            to <= s@.len(),
            out@ == old(out)@ + s@.subrange(from as int, i as int),
        decreases to - i,
    {
        push_char(out, s[i]);
        proof {
            assert(s@.subrange(from as int, i + 1) =~= s@.subrange(from as int, i as int).push(s@[i as int]));
        }
        i = i + 1;
    }
}

pub(crate) fn chars_of(s: &str) -> (r: Vec<char>)
    ensures
        r@ == s@,
{
    let mut r: Vec<char> = Vec::new();
    for c in it: s.chars()
        invariant
            it.seq() == s@,
            r@ == it.seq().take(it.index() as int),
    {
        r.push(c);
        proof {
            assert(it.seq().take(it.index() + 1) =~= it.seq().take(it.index() as int).push(c));
        }
    }
    proof {
        assert(s@.take(s@.len() as int) =~= s@);
    }
    r
}

/// Puts `token` in place of the first placeholder of an endpoint address
/// (the account service's beam-in and beam-out addresses carry one).
pub fn fill_endpoint(template: &str, token: &str) -> (r: String)
    ensures
        r@ == fill_first(template@, token@),
{
    let t = chars_of(template);
    let tok = chars_of(token);
    let n = t.len();
    let mut k: usize = 0;
    let mut found = false;
    while !found && n >= 4 && k <= n - 4
        invariant
            n == t@.len(),
            k <= n,
            found ==> placeholder_at(t@, k as int),
            forall|j: int| 0 <= j < k ==> !placeholder_at(t@, j),
        decreases n - k + (if found { 0int } else { 1int }),
    {
        if t[k] == '^' && t[k + 1] == '^' && t[k + 2] == '^' && t[k + 3] == '^' {
            found = true;
            proof {
                assert(t@.subrange(k as int, k + 4) =~= placeholder());
            }
        } else {
            proof {
                if placeholder_at(t@, k as int) {
                    assert(t@.subrange(k as int, k + 4)[0] == t@[k as int]);
                    assert(t@.subrange(k as int, k + 4)[1] == t@[k + 1]);
                    assert(t@.subrange(k as int, k + 4)[2] == t@[k + 2]);
                    assert(t@.subrange(k as int, k + 4)[3] == t@[k + 3]);
                }
            }
            k = k + 1;
        }
    }
    let mut out = String::new();
    if found {
        push_all(&mut out, &t, 0, k);
        push_all(&mut out, &tok, 0, tok.len());
        push_all(&mut out, &t, k + 4, n);
        proof {
            let c = choose|c: int|
                placeholder_at(t@, c) && forall|j: int| 0 <= j < c ==> !placeholder_at(t@, j);
            assert(c == k) by {
                if c < k {
                } else if c > k {
                }
            }
            assert(tok@.subrange(0, tok@.len() as int) =~= tok@);
            assert(out@ =~= fill_first(template@, token@));
        }
    } else {
        push_all(&mut out, &t, 0, n);
        proof {
            assert forall|j: int| !placeholder_at(t@, j) by {
                if placeholder_at(t@, j) {
                    assert(j < k);
                }
            }
            assert(t@.subrange(0, n as int) =~= t@);
        }
    }
    out
}

} // verus!
