use vstd::prelude::*;

verus! {

/// Characters the editor holds: printable ASCII, `' '` to `'~'`.
pub open spec fn is_printable(ch: char) -> bool {
    ' ' <= ch <= '~'
}

/// Start of the run of spaces that ends at `k`.
pub open spec fn space_run_start(q: Seq<char>, k: int) -> int
    decreases k,
{
    if k <= 0 {
        0
    } else if q[k - 1] == ' ' {
        space_run_start(q, k - 1)
    } else {
        k
    }
}

/// Where deleting the word before `k` stops: back over non-spaces to the
/// nearest space, which goes too, and then over the spaces before it.
pub open spec fn word_start(q: Seq<char>, k: int) -> int
    decreases k,
{
    if k <= 0 {
        0
    } else if q[k - 1] == ' ' {
        space_run_start(q, k - 1)
    } else {
        word_start(q, k - 1)
    }
}

pub proof fn lemma_space_run_start_bounds(q: Seq<char>, k: int)
    requires
        0 <= k,
    ensures
        0 <= space_run_start(q, k) <= k,
    decreases k,
{
    if k > 0 && q[k - 1] == ' ' {
        lemma_space_run_start_bounds(q, k - 1);
    }
}

pub proof fn lemma_word_start_bounds(q: Seq<char>, k: int)
    requires
        0 <= k,
    ensures
        0 <= word_start(q, k) <= k,
        k > 0 ==> word_start(q, k) < k,
    decreases k,
{
    if k > 0 {
        if q[k - 1] == ' ' {
            lemma_space_run_start_bounds(q, k - 1);
        } else {
            lemma_word_start_bounds(q, k - 1);
        }
    }
}

/// The query with `q[from..to]` taken out.
pub open spec fn cut(q: Seq<char>, from: int, to: int) -> Seq<char> {
    q.subrange(0, from) + q.subrange(to, q.len() as int)
}

/// The query line of the picker: printable characters and a cursor that
/// counts characters from the start.
pub struct Search {
    query: Vec<char>,
    text: String,
    cursor: usize,
}

impl Search {
    pub closed spec fn query_view(&self) -> Seq<char> {
        self.query@
    }

    pub closed spec fn cursor_view(&self) -> nat {
        self.cursor as nat
    }

    pub closed spec fn wf(&self) -> bool {
        &&& self.cursor <= self.query@.len()
        &&& self.text@ == self.query@
        &&& forall|i: int| 0 <= i < self.query@.len() ==> is_printable(#[trigger] self.query@[i])
    }

    /// What `wf` promises to callers.
    pub proof fn lemma_wf(&self)
        requires
            self.wf(),
        ensures
            self.cursor_view() <= self.query_view().len(),
            forall|i: int| 0 <= i < self.query_view().len() ==> is_printable(#[trigger] self.query_view()[i]),
    {
    }

    /// An empty query with the cursor at 0.
    pub fn new() -> (r: Search)
        ensures
            r.wf(),
            r.query_view() == Seq::<char>::empty(),
            r.cursor_view() == 0,
    {
        Search { query: Vec::new(), text: String::new(), cursor: 0 }
    }

    /// The query as a string.
    pub fn as_str(&self) -> (r: &str)
        requires
            self.wf(),
        ensures
            r@ == self.query_view(),
    {
        self.text.as_str()
    }

    /// The query as characters.
    pub fn chars(&self) -> (r: &Vec<char>)
        ensures
            r@ == self.query_view(),
    {
        &self.query
    }

    /// The cursor, in characters from the start.
    pub fn cursor(&self) -> (r: usize)
        ensures
            r as nat == self.cursor_view(),
    {
        self.cursor
    }

    fn set_query(&mut self, q: Vec<char>)
        requires
            forall|i: int| 0 <= i < q@.len() ==> is_printable(#[trigger] q@[i]),
        ensures
            final(self).query@ == q@,
            final(self).text@ == q@,
            final(self).cursor == old(self).cursor,
    {
        self.text = chars_to_string(&q);
        self.query = q;
    }

    /// Puts a printable character at the cursor and moves the cursor past it;
    /// any other character is ignored.
    pub fn insert(&mut self, ch: char)
        requires
            old(self).wf(),
        ensures
            final(self).wf(),
            is_printable(ch) ==> final(self).query_view() == old(self).query_view().insert(old(self).cursor_view() as int, ch)
                && final(self).cursor_view() == old(self).cursor_view() + 1,
            !is_printable(ch) ==> final(self).query_view() == old(self).query_view()
                && final(self).cursor_view() == old(self).cursor_view(),
    {
        if ch < ' ' || ch > '~' {
            return;
        }
        let mut q = self.query.clone();
        assert(q@ == self.query@);
        q.insert(self.cursor, ch);
        let n = q.len();
        assert(self.cursor < n);
        let ghost q0 = self.query@;
        assert forall|i: int| 0 <= i < q@.len() implies is_printable(#[trigger] q@[i]) by {
            if i > self.cursor as int {
                assert(q@[i] == q0[i - 1]);
            } else if i < self.cursor as int {
                assert(q@[i] == q0[i]);
            }
        }
        self.set_query(q);
        self.cursor = self.cursor + 1;
    }

    /// Moves the cursor to the start.
    pub fn cursor_to_start(&mut self)
        requires
            old(self).wf(),
        ensures
            final(self).wf(),
            final(self).query_view() == old(self).query_view(),
            final(self).cursor_view() == 0,
    {
        self.cursor = 0;
    }

    /// Moves the cursor to the end.
    pub fn cursor_to_end(&mut self)
        requires
            old(self).wf(),
        ensures
            final(self).wf(),
            final(self).query_view() == old(self).query_view(),
            final(self).cursor_view() == old(self).query_view().len(),
    {
        self.cursor = self.query.len();
    }

    /// Deletes the word before the cursor, the nearest space before it, and
    /// the spaces before that space. Does nothing at the start.
    pub fn delete_word(&mut self)
        requires
            old(self).wf(),
        ensures
            final(self).wf(),
            ({
                let q = old(self).query_view();
                let k = old(self).cursor_view() as int;
                &&& final(self).query_view() == cut(q, word_start(q, k), k)
                &&& final(self).cursor_view() == word_start(q, k)
            }),
    {
        let ghost q = self.query@;
        let k = self.cursor;
        let mut i = k;
        while i > 0 && self.query[i - 1] != ' '
            invariant
                self.wf(),
                q == self.query@,
                k == self.cursor,
                i <= k,
                word_start(q, k as int) == word_start(q, i as int),
            decreases i,
        {
            i = i - 1;
        }
        if i > 0 {
            i = i - 1;
            while i > 0 && self.query[i - 1] == ' '
                invariant
                    self.wf(),
                    q == self.query@,
                    k == self.cursor,
                    i < k,
                    word_start(q, k as int) == space_run_start(q, i as int),
                decreases i,
            {
                i = i - 1;
            }
        }
        proof {
            lemma_word_start_bounds(q, k as int);
        }
        let rest = cut_exec(&self.query, i, k);
        self.set_query(rest);
        self.cursor = i;
    }

    /// Deletes everything before the cursor.
    pub fn delete_till_start(&mut self)
        requires
            old(self).wf(),
        ensures
            final(self).wf(),
            final(self).query_view() == old(self).query_view().subrange(old(self).cursor_view() as int, old(self).query_view().len() as int),
            final(self).cursor_view() == 0,
    {
        let rest = cut_exec(&self.query, 0, self.cursor);
        assert(rest@ =~= self.query@.subrange(self.cursor as int, self.query@.len() as int));
        self.set_query(rest);
        self.cursor = 0;
    }

    /// Deletes the cursor's character and everything after it.
    pub fn delete_till_end(&mut self)
        requires
            old(self).wf(),
        ensures
            final(self).wf(),
            final(self).query_view() == old(self).query_view().subrange(0, old(self).cursor_view() as int),
            final(self).cursor_view() == old(self).cursor_view(),
    {
        let rest = cut_exec(&self.query, self.cursor, self.query.len());
        assert(rest@ =~= self.query@.subrange(0, self.cursor as int));
        self.set_query(rest);
    }

    /// Deletes the character before the cursor, if there is one.
    pub fn delete(&mut self)
        requires
            old(self).wf(),
        ensures
            final(self).wf(),
            old(self).cursor_view() > 0 ==> final(self).query_view() == old(self).query_view().remove(old(self).cursor_view() - 1)
                && final(self).cursor_view() == old(self).cursor_view() - 1,
            old(self).cursor_view() == 0 ==> final(self).query_view() == old(self).query_view()
                && final(self).cursor_view() == 0,
    {
        if self.cursor > 0 {
            let rest = cut_exec(&self.query, self.cursor - 1, self.cursor);
            assert(rest@ =~= self.query@.remove(self.cursor - 1));
            self.set_query(rest);
            self.cursor = self.cursor - 1;
        }
    }

    /// Empties the query.
    pub fn clear(&mut self)
        requires
            old(self).wf(),
        ensures
            final(self).wf(),
            final(self).query_view() == Seq::<char>::empty(),
            final(self).cursor_view() == 0,
    {
        self.set_query(Vec::new());
        self.cursor = 0;
    }

    /// Moves the cursor one character left, stopping at the start.
    pub fn cursor_left(&mut self)
        requires
            old(self).wf(),
        ensures
            final(self).wf(),
            final(self).query_view() == old(self).query_view(),
            final(self).cursor_view() == if old(self).cursor_view() == 0 { 0 } else { (old(self).cursor_view() - 1) as nat },
    {
        self.cursor = self.cursor.saturating_sub(1);
    }

    /// Moves the cursor one character right, stopping at the end.
    pub fn cursor_right(&mut self)
        requires
            old(self).wf(),
        ensures
            final(self).wf(),
            final(self).query_view() == old(self).query_view(),
            final(self).cursor_view() == if old(self).cursor_view() < old(self).query_view().len() {
                old(self).cursor_view() + 1
            } else {
                old(self).cursor_view()
            },
    {
        if self.cursor < self.query.len() {
            self.cursor = self.cursor + 1;
        }
    }
}

/// `q` without `q[from..to]`.
fn cut_exec(q: &Vec<char>, from: usize, to: usize) -> (r: Vec<char>)
    requires
        from <= to <= q@.len(),
    ensures
        r@ == cut(q@, from as int, to as int),
        forall|c: char| r@.contains(c) ==> q@.contains(c),
{
    let mut r: Vec<char> = Vec::new();
    let mut i: usize = 0;
    while i < from
        invariant
            from <= to <= q@.len(),
            i <= from,
            r@ == q@.subrange(0, i as int),
        decreases from - i,
    {
        r.push(q[i]);
        i = i + 1;
        assert(r@ =~= q@.subrange(0, i as int));
    }
    let mut j: usize = to;
    while j < q.len()
        invariant
            from <= to <= j <= q@.len(),
            r@ == q@.subrange(0, from as int) + q@.subrange(to as int, j as int),
        decreases q@.len() - j,
    {
        r.push(q[j]);
        j = j + 1;
        assert(r@ =~= q@.subrange(0, from as int) + q@.subrange(to as int, j as int));
    }
    proof {
        assert forall|c: char| r@.contains(c) implies q@.contains(c) by {
            let k = choose|k: int| 0 <= k < r@.len() && r@[k] == c;
            if k < from {
                assert(q@[k] == c);
            } else {
                assert(q@[k - from + to] == c);
            }
        }
    }
    r
}

/// The characters of `v`, in order, as a string.
pub fn chars_to_string(v: &Vec<char>) -> (r: String)
    ensures
        r@ == v@,
{
    let mut s = String::new();
    let mut i: usize = 0;
    while i < v.len()
        invariant
            i <= v@.len(),
            s@ == v@.subrange(0, i as int),
        decreases v@.len() - i,
    {
        push_char(&mut s, v[i]);
        i = i + 1;
        assert(s@ =~= v@.subrange(0, i as int));
    }
    assert(v@.subrange(0, v@.len() as int) =~= v@);
    s
}

/// Relies on `String::push`: appends the character at the end.
#[verifier::external_body]
fn push_char(s: &mut String, c: char)
    ensures
        final(s)@ == old(s)@.push(c),
{
    s.push(c);
}

} // verus!
