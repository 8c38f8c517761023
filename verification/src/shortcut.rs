//! The shortcut writer's logic: sanitized descriptor construction and a
//! model of the single desktop link file it maintains.
//!
//! Writing the platform link file itself is operating-system work that a
//! thin binary does around this library; everything it bakes into the
//! link is decided here.

use vstd::prelude::*;
use vstd::string::StrSliceExecFns;
use vstd::string::StringExecFns;

verus! {

/// `s` with every double-quote character removed, in order.
pub open spec fn strip_quotes_spec(s: Seq<char>) -> Seq<char>
    decreases s.len(),
{
    if s.len() == 0 {
        Seq::empty()
    } else if s.last() == '"' {
        strip_quotes_spec(s.drop_last())
    } else {
        strip_quotes_spec(s.drop_last()).push(s.last())
    }
}

/// Removes every double-quote character from a path string.
pub fn strip_quotes(s: &str) -> (r: String)
    ensures
        r@ == strip_quotes_spec(s@),
{
    let n = s.unicode_len();
    let mut out = String::new();
    let mut i: usize = 0;
    while i < n
        invariant
            0 <= i <= n == s@.len(),
            out@ == strip_quotes_spec(s@.subrange(0, i as int)),
        decreases n - i,
    {
        let c = s.get_char(i);
        proof {
            assert(s@.subrange(0, i + 1).drop_last() =~= s@.subrange(0, i as int));
            assert(s@.subrange(0, i + 1).last() == s@[i as int]);
        }
        if c != '"' {
            let piece = s.substring_char(i, i + 1);
            out.append(piece);
            proof {
                assert(out@ =~= strip_quotes_spec(s@.subrange(0, i as int)).push(s@[i as int]));
            }
        }
        i += 1;
    }
    proof {
        assert(s@.subrange(0, n as int) =~= s@);
    }
    out
}

/// Everything the link file is to hold: target executable, working
/// directory, and the fixed launch argument. Built once from sanitized
/// inputs, never changed afterwards.
pub struct ShortcutDescriptor {
    pub target: String,
    pub working_dir: String,
    pub arguments: String,
}

impl ShortcutDescriptor {
    /// Builds the descriptor: both paths with their quote characters
    /// stripped, and the fixed multi-instance flag as the argument.
    pub fn new(target: &str, working_dir: &str) -> (d: Self)
        ensures
            d.target@ == strip_quotes_spec(target@),
            d.working_dir@ == strip_quotes_spec(working_dir@),
            d.arguments@ == "--multi-instance"@,
    {
        ShortcutDescriptor {
            target: strip_quotes(target),
            working_dir: strip_quotes(working_dir),
            arguments: String::from_str("--multi-instance"),
        }
    }
}

/// What one link file stores.
pub struct LinkFile {
    pub target: String,
    pub working_dir: String,
    pub arguments: String,
}

/// The single desktop link this program maintains: absent until the
/// first write, then holding exactly what the last write put there.
pub struct Desktop {
    pub link: Option<LinkFile>,
}

impl Desktop {
    /// A desktop with no link written yet.
    pub fn new() -> (d: Self)
        ensures
            d.link is None,
    {
        Desktop { link: None }
    }

    /// Writes the link file from a descriptor, replacing whatever link
    /// was there before: the stored contents afterwards are those of
    /// this descriptor alone, whatever the desktop held.
    pub fn save_shortcut(&mut self, d: ShortcutDescriptor)
        ensures
            final(self).link matches Some(l) && l.target@ == d.target@ && l.working_dir@
                == d.working_dir@ && l.arguments@ == d.arguments@,
    {
        self.link = Some(
            LinkFile { target: d.target, working_dir: d.working_dir, arguments: d.arguments },
        );
    }

    /// The target stored in the link, if one has been written.
    pub fn stored_target(&self) -> (r: Option<&str>)
        ensures
            match r {
                Some(t) => self.link matches Some(l) && t@ == l.target@,
                None => self.link is None,
            },
    {
        match &self.link {
            Some(l) => Some(l.target.as_str()),
            None => None,
        }
    }

    /// The argument string stored in the link, if one has been written.
    pub fn stored_arguments(&self) -> (r: Option<&str>)
        ensures
            match r {
                Some(t) => self.link matches Some(l) && t@ == l.arguments@,
                None => self.link is None,
            },
    {
        match &self.link {
            Some(l) => Some(l.arguments.as_str()),
            None => None,
        }
    }

    /// Builds the descriptor from the two paths and writes the link in
    /// one step, as the program does: afterwards the link stores the
    /// quote-stripped target and working directory and the fixed
    /// multi-instance argument, whatever was stored before.
    pub fn create_shortcut(&mut self, target: &str, working_dir: &str)
        ensures
            final(self).link matches Some(l) && l.target@ == strip_quotes_spec(target@)
                && l.working_dir@ == strip_quotes_spec(working_dir@) && l.arguments@
                == "--multi-instance"@,
    {
        let d = ShortcutDescriptor::new(target, working_dir);
        self.save_shortcut(d);
    }
}

/// Round trip through the sanitizer: after a shortcut is created from a
/// target path, the link's stored target is the quote-stripped input —
/// it holds no quote character, and it is the input itself whenever the
/// input held no quote.
pub proof fn lemma_stored_target_round_trip(desk: Desktop, target: Seq<char>)
    requires
        desk.link matches Some(l) && l.target@ == strip_quotes_spec(target),
    ensures
        desk.link matches Some(l) ==> (forall|i: int|
            0 <= i < l.target@.len() ==> l.target@[i] != '"') && ((forall|i: int|
            0 <= i < target.len() ==> target[i] != '"') ==> l.target@ == target),
{
    lemma_strip_quotes_clean(target);
}

/// The link reflects the last write alone: two desktops that were last
/// written from the same descriptor store the same link contents,
/// whatever either desktop held before.
pub proof fn lemma_link_overwritten(a: Desktop, b: Desktop, d: ShortcutDescriptor)
    requires
        a.link matches Some(l) && l.target@ == d.target@ && l.working_dir@ == d.working_dir@
            && l.arguments@ == d.arguments@,
        b.link matches Some(l) && l.target@ == d.target@ && l.working_dir@ == d.working_dir@
            && l.arguments@ == d.arguments@,
    ensures
        a.link matches Some(la) && b.link matches Some(lb) && la.target@ == lb.target@
            && la.working_dir@ == lb.working_dir@ && la.arguments@ == lb.arguments@,
{
}

/// The sanitizer never leaves a quote behind, and touches nothing else:
/// the stripped string is the subsequence of non-quote characters.
pub proof fn lemma_strip_quotes_clean(s: Seq<char>)
    ensures
        forall|i: int| 0 <= i < strip_quotes_spec(s).len() ==> strip_quotes_spec(s)[i] != '"',
        (forall|i: int| 0 <= i < s.len() ==> s[i] != '"') ==> strip_quotes_spec(s) == s,
    decreases s.len(),
{
    if s.len() == 0 {
        assert(strip_quotes_spec(s) =~= s);
    } else {
        let t = s.drop_last();
        lemma_strip_quotes_clean(t);
        assert forall|i: int| 0 <= i < strip_quotes_spec(s).len() implies strip_quotes_spec(
            s,
        )[i] != '"' by {
            if s.last() != '"' {
                if i < strip_quotes_spec(t).len() {
                    assert(strip_quotes_spec(s)[i] == strip_quotes_spec(t)[i]);
                } else {
                    assert(strip_quotes_spec(s)[i] == s.last());
                }
            }
        }
        if forall|i: int| 0 <= i < s.len() ==> s[i] != '"' {
            assert(forall|i: int| 0 <= i < t.len() ==> t[i] != '"');
            assert(s.last() != '"');
            assert(strip_quotes_spec(s) =~= s);
        }
    }
}

} // verus!
