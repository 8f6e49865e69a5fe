use vstd::prelude::*;

verus! {

/// Names of the parameters of the enclosing lambdas, innermost frame last.
pub struct StaticEnv {
    pub frames: Vec<Vec<String>>,
}

/// The frame that lies `depth` frames out from the innermost one.
pub open spec fn frame_at_depth(frames: Seq<Seq<Seq<char>>>, depth: int) -> Seq<Seq<char>> {
    frames[frames.len() - 1 - depth]
}

/// `name` is bound at `(depth, index)` and nowhere closer: no frame nearer
/// than `depth` holds it, and `index` is its first position in that frame.
pub open spec fn binds_first(
    frames: Seq<Seq<Seq<char>>>,
    name: Seq<char>,
    depth: int,
    index: int,
) -> bool {
    &&& 0 <= depth < frames.len()
    &&& 0 <= index < frame_at_depth(frames, depth).len()
    &&& frame_at_depth(frames, depth)[index] == name
    &&& forall|j: int| 0 <= j < index ==> frame_at_depth(frames, depth)[j] != name
    &&& forall|d: int| 0 <= d < depth ==> !frame_at_depth(frames, d).contains(name)
}

/// `name` is bound in some frame.
pub open spec fn is_bound(frames: Seq<Seq<Seq<char>>>, name: Seq<char>) -> bool {
    exists|d: int| 0 <= d < frames.len() && #[trigger] frame_at_depth(frames, d).contains(name)
}

/// The binding `lookup` finds for `name`, if any.
pub open spec fn lookup_spec(frames: Seq<Seq<Seq<char>>>, name: Seq<char>) -> Option<(int, int)> {
    if is_bound(frames, name) {
        Some(choose|p: (int, int)| binds_first(frames, name, p.0, p.1))
    } else {
        None
    }
}

/// A bound name has exactly one nearest binding.
pub proof fn lemma_binds_first_unique(frames: Seq<Seq<Seq<char>>>, name: Seq<char>, d1: int, i1: int, d2: int, i2: int)
    requires
        binds_first(frames, name, d1, i1),
        binds_first(frames, name, d2, i2),
    ensures
        d1 == d2 && i1 == i2,
{
    if d1 < d2 {
        assert(frame_at_depth(frames, d1).contains(name)) by {
            assert(frame_at_depth(frames, d1)[i1] == name);
        }
    } else if d2 < d1 {
        assert(frame_at_depth(frames, d2).contains(name)) by {
            assert(frame_at_depth(frames, d2)[i2] == name);
        }
    } else if i1 < i2 {
        assert(frame_at_depth(frames, d2)[i1] != name);
    } else if i2 < i1 {
        assert(frame_at_depth(frames, d1)[i2] != name);
    }
}

/// `lookup_spec` agrees with the nearest binding.
pub proof fn lemma_lookup_spec(frames: Seq<Seq<Seq<char>>>, name: Seq<char>, d: int, i: int)
    requires
        binds_first(frames, name, d, i),
    ensures
        lookup_spec(frames, name) == Some((d, i)),
{
    assert(frame_at_depth(frames, d).contains(name)) by {
        assert(frame_at_depth(frames, d)[i] == name);
    }
    assert(is_bound(frames, name));
    let w = (d, i);
    assert(binds_first(frames, name, w.0, w.1));
    let p = choose|p: (int, int)| binds_first(frames, name, p.0, p.1);
    lemma_binds_first_unique(frames, name, d, i, p.0, p.1);
}

/// Popping a frame undoes pushing it.
pub proof fn law_pop_undoes_push(frames: Seq<Seq<Seq<char>>>, params: Seq<Seq<char>>)
    ensures
        frames.push(params).drop_last() == frames,
{
    assert(frames.push(params).drop_last() =~= frames);
}

/// A name among the parameters of the innermost frame is found there, at its
/// first position, whatever the outer frames bind.
pub proof fn law_innermost_binding_wins(frames: Seq<Seq<Seq<char>>>, params: Seq<Seq<char>>, index: int)
    requires
        0 <= index < params.len(),
        forall|j: int| 0 <= j < index ==> params[j] != params[index],
    ensures
        lookup_spec(frames.push(params), params[index]) == Some((0int, index)),
{
    let f = frames.push(params);
    assert(frame_at_depth(f, 0) == params);
    lemma_lookup_spec(f, params[index], 0, index);
}

/// A name bound in no frame is not found.
pub proof fn law_unbound_not_found(frames: Seq<Seq<Seq<char>>>, name: Seq<char>)
    requires
        forall|d: int| 0 <= d < frames.len() ==> !#[trigger] frames[d].contains(name),
    ensures
        lookup_spec(frames, name) is None,
{
    if is_bound(frames, name) {
        let d = choose|d: int| 0 <= d < frames.len() && #[trigger] frame_at_depth(frames, d).contains(name);
        assert(frames[frames.len() - 1 - d].contains(name));
    }
}

impl StaticEnv {
    pub open spec fn view_frames(&self) -> Seq<Seq<Seq<char>>> {
        self.frames@.map_values(|f: Vec<String>| f@.map_values(|s: String| s@))
    }

    pub fn new() -> (env: Self)
        ensures
            env.view_frames() == Seq::<Seq<Seq<char>>>::empty(),
    {
        StaticEnv { frames: Vec::new() }
    }

    /// A copy holding the same frames.
    pub fn duplicate(&self) -> (r: Self)
        ensures
            r.view_frames() == self.view_frames(),
    {
        let mut frames: Vec<Vec<String>> = Vec::new();
        let mut i: usize = 0;
        while i < self.frames.len()
            invariant
                0 <= i <= self.frames@.len(),
                frames@.len() == i,
                forall|k: int| 0 <= k < i ==> (#[trigger] frames@[k])@.map_values(|s: String| s@)
                    == self.frames@[k]@.map_values(|s: String| s@),
            decreases self.frames@.len() - i,
        {
            let frame = &self.frames[i];
            let mut copy: Vec<String> = Vec::new();
            let mut j: usize = 0;
            while j < frame.len()
                invariant
                    0 <= j <= frame@.len(),
                    copy@.len() == j,
                    forall|k: int| 0 <= k < j ==> #[trigger] copy@[k]@ == frame@[k]@,
                decreases frame@.len() - j,
            {
                copy.push(frame[j].clone());
                j += 1;
            }
            assert(copy@.map_values(|s: String| s@) =~= frame@.map_values(|s: String| s@));
            frames.push(copy);
            i += 1;
        }
        let r = StaticEnv { frames };
        assert(r.view_frames() =~= self.view_frames());
        r
    }

    pub fn push_frame(&mut self, params: Vec<String>)
        ensures
            final(self).view_frames() == old(self).view_frames().push(
                params@.map_values(|s: String| s@),
            ),
    {
        self.frames.push(params);
        assert(self.view_frames() =~= old(self).view_frames().push(
            params@.map_values(|s: String| s@),
        ));
    }

    pub fn pop_frame(&mut self)
        ensures
            old(self).frames@.len() == 0 ==> final(self).view_frames() == old(self).view_frames(),
            old(self).frames@.len() > 0 ==> final(self).view_frames()
                == old(self).view_frames().drop_last(),
    {
        if self.frames.len() > 0 {
            self.frames.pop();
            assert(self.view_frames() =~= old(self).view_frames().drop_last());
        }
    }

    pub fn lookup(&self, name: &str) -> (res: Option<(usize, usize)>)
        ensures
            match res {
                Some((d, i)) => binds_first(self.view_frames(), name@, d as int, i as int),
                None => !is_bound(self.view_frames(), name@),
            },
    {
        let ghost fr = self.view_frames();
        let target = name.to_owned();
        let n = self.frames.len();
        let mut depth: usize = 0;
        while depth < n
            invariant
                n == self.frames@.len(),
                fr == self.view_frames(),
                target@ == name@,
                0 <= depth <= n,
                forall|d: int| 0 <= d < depth ==> !frame_at_depth(fr, d).contains(name@),
            decreases n - depth,
        {
            let frame = &self.frames[n - 1 - depth];
            assert(frame@.map_values(|s: String| s@) == frame_at_depth(fr, depth as int));
            let m = frame.len();
            let mut index: usize = 0;
            while index < m
                invariant
                    m == frame@.len(),
                    n == self.frames@.len(),
                    fr == self.view_frames(),
                    depth < n,
                    forall|d: int| 0 <= d < depth ==> !frame_at_depth(fr, d).contains(name@),
                    frame@.map_values(|s: String| s@) == frame_at_depth(fr, depth as int),
                    target@ == name@,
                    0 <= index <= m,
                    forall|j: int| 0 <= j < index ==> frame_at_depth(fr, depth as int)[j] != name@,
                decreases m - index,
            {
                if frame[index] == target {
                    return Some((depth, index));
                }
                index += 1;
            }
            assert(!frame_at_depth(fr, depth as int).contains(name@));
            depth += 1;
        }
        None
    }
}

} // verus!
