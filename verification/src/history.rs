//! The history of the commands given to an interactive session.

use crate::text::{
    chars_contain, chars_of, contains_text, string_of, text_of, trim_chars, trimmed,
};
use crate::seq_laws::lemma_filter_push;
use vstd::prelude::*;

verus! {

/// The texts of a list of strings, in order.
pub open spec fn texts_of(v: Seq<String>) -> Seq<Seq<char>> {
    v.map_values(|s: String| s@)
}

/// The commands after `command` was added to `commands`: the command
/// without the white space around it is put last, unless it is empty or
/// the last command already; and where the commands are then more than
/// `limit`, the first one leaves.
pub open spec fn with_command(commands: Seq<Seq<char>>, command: Seq<char>, limit: nat) -> Seq<
    Seq<char>,
> {
    let text = trimmed(command);
    if text.len() == 0 || (commands.len() > 0 && commands.last() == text) {
        commands
    } else if commands.len() + 1 > limit {
        commands.push(text).skip(1)
    } else {
        commands.push(text)
    }
}

/// The commands that a history holds after it was restored from the lines
/// of its file: the lines that hold more than white space, in order, and
/// of those the last `limit` where they are more.
pub open spec fn restored(lines: Seq<Seq<char>>, limit: nat) -> Seq<Seq<char>> {
    let kept = lines.filter(|l: Seq<char>| trimmed(l).len() > 0);
    if kept.len() > limit {
        kept.skip(kept.len() - limit)
    } else {
        kept
    }
}

/// The history of commands
pub struct History {
    /// The place of the history file
    file_path: String,
    /// The commands in memory
    commands: Vec<String>,
    /// The largest number of commands kept
    max_size: usize,
}

impl History {
    /// The commands in memory, oldest first.
    pub closed spec fn commands(&self) -> Seq<Seq<char>> {
        texts_of(self.commands@)
    }

    /// The largest number of commands kept.
    pub closed spec fn limit(&self) -> nat {
        self.max_size as nat
    }

    /// The place of the history file.
    pub closed spec fn place(&self) -> Seq<char> {
        self.file_path@
    }

    /// Create a new, empty history
    pub fn new(file_path: &str, max_size: usize) -> (r: Self)
        ensures
            r.commands() == Seq::<Seq<char>>::empty(),
            r.limit() == max_size,
            r.place() == file_path@,
    {
        let r = History { file_path: text_of(file_path), commands: Vec::new(), max_size };
        assert(r.commands() =~= Seq::<Seq<char>>::empty());
        r
    }

    /// The place of the history file.
    pub fn file_path(&self) -> (r: &String)
        ensures
            r@ == self.place(),
    {
        &self.file_path
    }

    /// The largest number of commands kept.
    pub fn max_size(&self) -> (r: usize)
        ensures
            r == self.limit(),
    {
        self.max_size
    }

    /// Add a command to the history
    pub fn add(&mut self, command: &str)
        ensures
            final(self).commands() == with_command(old(self).commands(), command@, old(self).limit()),
            final(self).limit() == old(self).limit(),
            final(self).place() == old(self).place(),
    {
        let text = trim_chars(command);
        if text.len() == 0 {
            return ;
        }
        let ghost before = self.commands();
        let n = self.commands.len();
        if n > 0 {
            let last = chars_of(self.commands[n - 1].as_str());
            assert(before.last() == last@);
            if same_text(&last, &text) {
                return ;
            }
        }
        self.commands.push(string_of(&text));
        assert(self.commands() =~= before.push(text@));
        if self.commands.len() > self.max_size {
            self.commands.remove(0);
            assert(self.commands() =~= before.push(text@).skip(1));
        }
    }

    /// Replace the commands by those that the lines of the history file
    /// hold.
    pub fn restore(&mut self, lines: Vec<String>)
        ensures
            final(self).commands() == restored(texts_of(lines@), old(self).limit()),
            final(self).limit() == old(self).limit(),
            final(self).place() == old(self).place(),
    {
        let ghost all = texts_of(lines@);
        let ghost keep = |l: Seq<char>| trimmed(l).len() > 0;
        let mut kept: Vec<String> = Vec::new();
        let mut i: usize = 0;
        proof {
            reveal(Seq::filter);
            assert(all.take(0) =~= Seq::<Seq<char>>::empty());
            assert(all.take(0).filter(keep) =~= Seq::<Seq<char>>::empty());
            assert(texts_of(kept@) =~= Seq::<Seq<char>>::empty());
        }
        while i < lines.len()
            invariant
                i <= lines.len(),
                all == texts_of(lines@),
                keep == (|l: Seq<char>| trimmed(l).len() > 0),
                texts_of(kept@) == all.take(i as int).filter(keep),
            decreases lines.len() - i,
        {
            let text = trim_chars(lines[i].as_str());
            proof {
                assert(all.take(i + 1) == all.take(i as int).push(all[i as int]));
                assert(all[i as int] == lines@[i as int]@);
                lemma_filter_push(all.take(i as int), all[i as int], keep);
            }
            if text.len() > 0 {
                let ghost listed = texts_of(kept@);
                kept.push(lines[i].clone());
                assert(texts_of(kept@) =~= listed.push(lines@[i as int]@));
            }
            i += 1;
        }
        assert(all.take(i as int) == all);
        if kept.len() > self.max_size {
            let from = kept.len() - self.max_size;
            let ghost whole = texts_of(kept@);
            let mut tail: Vec<String> = Vec::new();
            let mut k: usize = from;
            assert(texts_of(tail@) =~= whole.subrange(from as int, k as int));
            while k < kept.len()
                invariant
                    from <= k <= kept.len(),
                    whole == texts_of(kept@),
                    texts_of(tail@) == whole.subrange(from as int, k as int),
                decreases kept.len() - k,
            {
                let ghost listed = texts_of(tail@);
                tail.push(kept[k].clone());
                assert(texts_of(tail@) =~= listed.push(kept@[k as int]@));
                assert(whole[k as int] == kept@[k as int]@);
                assert(listed.push(whole[k as int]) =~= whole.subrange(from as int, k + 1));
                k += 1;
            }
            assert(whole.subrange(from as int, whole.len() as int) =~= whole.skip(from as int));
            self.commands = tail;
        } else {
            self.commands = kept;
        }
    }

    /// Get all commands, oldest first
    pub fn get_all(&self) -> (r: &[String])
        ensures
            texts_of(r@) == self.commands(),
    {
        self.commands.as_slice()
    }

    /// Find the commands in which a text stands
    pub fn search(&self, pattern: &str) -> (r: Vec<String>)
        ensures
            texts_of(r@) == self.commands().filter(|c: Seq<char>| contains_text(c, pattern@)),
    {
        let needle = chars_of(pattern);
        let ghost all = self.commands();
        let ghost keep = |c: Seq<char>| contains_text(c, pattern@);
        let mut out: Vec<String> = Vec::new();
        let mut i: usize = 0;
        assert(all.take(0) =~= Seq::<Seq<char>>::empty());
        assert(texts_of(out@) =~= Seq::<Seq<char>>::empty());
        proof {
            reveal(Seq::filter);
            assert(all.take(0).filter(keep) =~= Seq::<Seq<char>>::empty());
        }
        while i < self.commands.len()
            invariant
                i <= self.commands.len(),
                all == self.commands(),
                needle@ == pattern@,
                keep == (|c: Seq<char>| contains_text(c, pattern@)),
                texts_of(out@) == all.take(i as int).filter(keep),
            decreases self.commands.len() - i,
        {
            let hay = chars_of(self.commands[i].as_str());
            let ghost head = all.take(i as int);
            proof {
                assert(all.take(i + 1) == head.push(all[i as int]));
                assert(all[i as int] == hay@);
                lemma_filter_push(head, all[i as int], keep);
            }
            if chars_contain(&hay, &needle) {
                let ghost listed = texts_of(out@);
                out.push(self.commands[i].clone());
                assert(texts_of(out@) =~= listed.push(hay@));
            }
            i += 1;
        }
        assert(all.take(i as int) == all);
        out
    }
}

/// Whether two character vectors hold the same characters.
pub fn same_text(a: &Vec<char>, b: &Vec<char>) -> (r: bool)
    ensures
        r == (a@ == b@),
{
    if a.len() != b.len() {
        return false;
    }
    let mut i: usize = 0;
    while i < a.len()
        invariant
            i <= a.len(),
            a.len() == b.len(),
            forall|k: int| 0 <= k < i ==> a@[k] == b@[k],
        decreases a.len() - i,
    {
        if a[i] != b[i] {
            return false;
        }
        i += 1;
    }
    assert(a@ =~= b@);
    true
}

} // verus!
