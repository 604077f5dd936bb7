use vstd::prelude::*;

verus! {

/// One drawing verb of an outline.
#[derive(Debug, Clone, Copy, PartialEq, Eq, Structural)]
pub enum PathVerb {
    MoveTo,
    LineTo,
    QuadTo,
    CubicTo,
    Close,
}

impl PathVerb {
    /// How many points of the point buffer the verb consumes.
    pub open spec fn point_count(self) -> nat {
        match self {
            PathVerb::MoveTo | PathVerb::LineTo => 1,
            PathVerb::QuadTo => 2,
            PathVerb::CubicTo => 3,
            PathVerb::Close => 0,
        }
    }

    pub fn num_points(&self) -> (r: usize)
        ensures
            r as nat == self.point_count(),
    {
        match self {
            PathVerb::MoveTo | PathVerb::LineTo => 1,
            PathVerb::QuadTo => 2,
            PathVerb::CubicTo => 3,
            PathVerb::Close => 0,
        }
    }

    /// The verb that an outline extractor's draw-command tag stands for:
    /// 0 move, 1 line, 2 quadratic, 3 cubic, 4 close.
    pub open spec fn of_tag(tag: u32) -> Option<PathVerb> {
        if tag == 0 {
            Some(PathVerb::MoveTo)
        } else if tag == 1 {
            Some(PathVerb::LineTo)
        } else if tag == 2 {
            Some(PathVerb::QuadTo)
        } else if tag == 3 {
            Some(PathVerb::CubicTo)
        } else if tag == 4 {
            Some(PathVerb::Close)
        } else {
            None
        }
    }

    pub fn from_tag(tag: u32) -> (r: Option<PathVerb>)
        ensures
            r == PathVerb::of_tag(tag),
    {
        if tag == 0 {
            Some(PathVerb::MoveTo)
        } else if tag == 1 {
            Some(PathVerb::LineTo)
        } else if tag == 2 {
            Some(PathVerb::QuadTo)
        } else if tag == 3 {
            Some(PathVerb::CubicTo)
        } else if tag == 4 {
            Some(PathVerb::Close)
        } else {
            None
        }
    }
}

/// One drawing command, with the points that its verb consumes.
#[derive(Debug, Clone, Copy, PartialEq, Eq)]
pub enum PathCommand<P> {
    MoveTo(P),
    LineTo(P),
    QuadTo(P, P),
    CubicTo(P, P, P),
    Close,
}

/// The verb of a command.
pub open spec fn verb_of<P>(c: PathCommand<P>) -> PathVerb {
    match c {
        PathCommand::MoveTo(_) => PathVerb::MoveTo,
        PathCommand::LineTo(_) => PathVerb::LineTo,
        PathCommand::QuadTo(_, _) => PathVerb::QuadTo,
        PathCommand::CubicTo(_, _, _) => PathVerb::CubicTo,
        PathCommand::Close => PathVerb::Close,
    }
}

/// The points of a command, in order.
pub open spec fn points_of<P>(c: PathCommand<P>) -> Seq<P> {
    match c {
        PathCommand::MoveTo(a) => seq![a],
        PathCommand::LineTo(a) => seq![a],
        PathCommand::QuadTo(a, b) => seq![a, b],
        PathCommand::CubicTo(a, b, c) => seq![a, b, c],
        PathCommand::Close => seq![],
    }
}

/// The command that verb `v` makes of the points at the front of `pts`.
pub open spec fn command_of<P>(v: PathVerb, pts: Seq<P>) -> PathCommand<P> {
    match v {
        PathVerb::MoveTo => PathCommand::MoveTo(pts[0]),
        PathVerb::LineTo => PathCommand::LineTo(pts[0]),
        PathVerb::QuadTo => PathCommand::QuadTo(pts[0], pts[1]),
        PathVerb::CubicTo => PathCommand::CubicTo(pts[0], pts[1], pts[2]),
        PathVerb::Close => PathCommand::Close,
    }
}

/// How many points a verb sequence consumes in all.
pub open spec fn points_needed(verbs: Seq<PathVerb>) -> nat
    decreases verbs.len(),
{
    if verbs.len() == 0 {
        0
    } else {
        verbs[0].point_count() + points_needed(verbs.drop_first())
    }
}

/// The commands that `verbs` and `points` stand for, pairing each verb with
/// the points that follow; it stops at the first verb that runs out of points.
pub open spec fn decode<P>(verbs: Seq<PathVerb>, points: Seq<P>) -> Seq<PathCommand<P>>
    decreases verbs.len(),
{
    if verbs.len() == 0 || points.len() < verbs[0].point_count() {
        seq![]
    } else {
        seq![command_of(verbs[0], points)] + decode(
            verbs.drop_first(),
            points.skip(verbs[0].point_count() as int),
        )
    }
}

/// The verbs of a command sequence.
pub open spec fn encode_verbs<P>(cmds: Seq<PathCommand<P>>) -> Seq<PathVerb> {
    cmds.map_values(|c: PathCommand<P>| verb_of(c))
}

/// The points of a command sequence, flattened in order.
pub open spec fn encode_points<P>(cmds: Seq<PathCommand<P>>) -> Seq<P>
    decreases cmds.len(),
{
    if cmds.len() == 0 {
        seq![]
    } else {
        points_of(cmds[0]) + encode_points(cmds.drop_first())
    }
}

/// An outline: verbs and points in separate buffers.
#[derive(Debug, Clone)]
pub struct Path<P> {
    pub verbs: Vec<PathVerb>,
    pub points: Vec<P>,
}

impl<P> Path<P> {
    /// The point buffer holds exactly what the verbs consume.
    pub open spec fn well_formed(&self) -> bool {
        self.points@.len() == points_needed(self.verbs@)
    }

    /// The commands that the path stands for.
    pub open spec fn commands_spec(&self) -> Seq<PathCommand<P>> {
        decode(self.verbs@, self.points@)
    }

    pub fn new() -> (r: Path<P>)
        ensures
            r.verbs@.len() == 0,
            r.points@.len() == 0,
    {
        Path { verbs: Vec::new(), points: Vec::new() }
    }
}


impl<P: Copy> Path<P> {
    /// Appends `verb` with the points it consumes.
    pub fn push(&mut self, verb: PathVerb, pts: &[P])
        requires
            pts@.len() == verb.point_count(),
        ensures
            final(self).verbs@ == old(self).verbs@.push(verb),
            final(self).points@ == old(self).points@ + pts@,
    {
        self.verbs.push(verb);
        let ghost start = self.points@;
        let mut i: usize = 0;
        while i < pts.len()
            invariant
                i <= pts@.len(),
                self.verbs@ == old(self).verbs@.push(verb),
                self.points@ == start + pts@.take(i as int),
            decreases pts@.len() - i,
        {
            self.points.push(pts[i]);
            i += 1;
            assert(self.points@ =~= start + pts@.take(i as int));
        }
        assert(pts@.take(i as int) =~= pts@);
    }

    /// Appends one command.
    pub fn push_command(&mut self, cmd: PathCommand<P>)
        ensures
            final(self).verbs@ == old(self).verbs@.push(verb_of(cmd)),
            final(self).points@ == old(self).points@ + points_of(cmd),
    {
        match cmd {
            PathCommand::MoveTo(a) => {
                self.verbs.push(PathVerb::MoveTo);
                self.points.push(a);
            },
            PathCommand::LineTo(a) => {
                self.verbs.push(PathVerb::LineTo);
                self.points.push(a);
            },
            PathCommand::QuadTo(a, b) => {
                self.verbs.push(PathVerb::QuadTo);
                self.points.push(a);
                self.points.push(b);
            },
            PathCommand::CubicTo(a, b, c) => {
                self.verbs.push(PathVerb::CubicTo);
                self.points.push(a);
                self.points.push(b);
                self.points.push(c);
            },
            PathCommand::Close => {
                self.verbs.push(PathVerb::Close);
            },
        }
        assert(self.points@ =~= old(self).points@ + points_of(cmd));
    }

    /// The path whose verb and point buffers encode `cmds`.
    pub fn from_commands(cmds: &[PathCommand<P>]) -> (r: Path<P>)
        ensures
            r.verbs@ == encode_verbs(cmds@),
            r.points@ == encode_points(cmds@),
    {
        let mut path = Path::new();
        let mut i: usize = 0;
        while i < cmds.len()
            invariant
                i <= cmds@.len(),
                path.verbs@ == encode_verbs(cmds@.take(i as int)),
                path.points@ == encode_points(cmds@.take(i as int)),
            decreases cmds@.len() - i,
        {
            proof {
                lemma_encode_points_push(cmds@.take(i as int), cmds@[i as int]);
                assert(cmds@.take(i + 1) =~= cmds@.take(i as int).push(cmds@[i as int]));
            }
            path.push_command(cmds[i]);
            i += 1;
            assert(path.verbs@ =~= encode_verbs(cmds@.take(i as int)));
        }
        assert(cmds@.take(i as int) =~= cmds@);
        path
    }

    /// A restartable walk over the path's commands, from the first.
    pub fn iter(&self) -> (r: PathIter<'_, P>)
        ensures
            r.remaining() == self.commands_spec(),
    {
        proof {
            assert(self.verbs@.skip(0) =~= self.verbs@);
            assert(self.points@.skip(0) =~= self.points@);
        }
        PathIter { path: self, verb_index: 0, point_index: 0 }
    }

    /// All commands of the path, in order.
    pub fn commands(&self) -> (r: Vec<PathCommand<P>>)
        ensures
            r@ == self.commands_spec(),
    {
        let mut it = self.iter();
        let mut r: Vec<PathCommand<P>> = Vec::new();
        loop
            invariant
                self.commands_spec() == r@ + it.remaining(),
            ensures
                r@ == self.commands_spec(),
            decreases it.remaining().len(),
        {
            match it.next() {
                Some(c) => {
                    r.push(c);
                    assert(self.commands_spec() =~= r@ + it.remaining());
                },
                None => {
                    assert(r@ + it.remaining() =~= r@);
                    break ;
                },
            }
        }
        r
    }
}

/// A walk over a path's commands. It stops, and stays stopped, at the end of
/// the verbs or at the first verb whose points are missing.
pub struct PathIter<'a, P> {
    path: &'a Path<P>,
    verb_index: usize,
    point_index: usize,
}

impl<'a, P: Copy> PathIter<'a, P> {
    /// The commands that are still to come.
    pub closed spec fn remaining(&self) -> Seq<PathCommand<P>> {
        if self.inv() {
            decode(
                self.path.verbs@.skip(self.verb_index as int),
                self.path.points@.skip(self.point_index as int),
            )
        } else {
            seq![]
        }
    }

    pub closed spec fn inv(&self) -> bool {
        self.verb_index <= self.path.verbs@.len() && self.point_index <= self.path.points@.len()
    }

    /// The next command, if there is one.
    pub fn next(&mut self) -> (r: Option<PathCommand<P>>)
        ensures
            old(self).remaining().len() == 0 ==> r is None && final(self).remaining() == old(self).remaining(),
            old(self).remaining().len() > 0 ==> r == Some(old(self).remaining()[0])
                && final(self).remaining() == old(self).remaining().drop_first(),
    {
        let ghost vs = self.path.verbs@.skip(self.verb_index as int);
        let ghost ps = self.path.points@.skip(self.point_index as int);
        if self.verb_index >= self.path.verbs.len() {
            return None;
        }
        let verb = self.path.verbs[self.verb_index];
        let n = verb.num_points();
        let pi = self.point_index;
        if self.path.points.len() < pi || self.path.points.len() - pi < n {
            return None;
        }
        assert(vs[0] == verb);
        let cmd = match verb {
            PathVerb::MoveTo => PathCommand::MoveTo(self.path.points[pi]),
            PathVerb::LineTo => PathCommand::LineTo(self.path.points[pi]),
            PathVerb::QuadTo => PathCommand::QuadTo(self.path.points[pi], self.path.points[pi + 1]),
            PathVerb::CubicTo => PathCommand::CubicTo(
                self.path.points[pi],
                self.path.points[pi + 1],
                self.path.points[pi + 2],
            ),
            PathVerb::Close => PathCommand::Close,
        };
        self.verb_index += 1;
        self.point_index = pi + n;
        proof {
            assert(cmd == command_of(verb, ps));
            assert(vs.drop_first() =~= self.path.verbs@.skip(self.verb_index as int));
            assert(ps.skip(n as int) =~= self.path.points@.skip(self.point_index as int));
        }
        Some(cmd)
    }
}

proof fn lemma_encode_points_push<P>(cmds: Seq<PathCommand<P>>, c: PathCommand<P>)
    ensures
        encode_points(cmds.push(c)) == encode_points(cmds) + points_of(c),
    decreases cmds.len(),
{
    if cmds.len() == 0 {
        assert(cmds.push(c).drop_first() =~= seq![]);
        assert(cmds.push(c)[0] == c);
        assert(encode_points(cmds.push(c).drop_first()) =~= seq![]);
        assert(encode_points(cmds) =~= seq![]);
        assert(encode_points(cmds.push(c)) =~= encode_points(cmds) + points_of(c));
    } else {
        lemma_encode_points_push(cmds.drop_first(), c);
        assert(cmds.push(c).drop_first() =~= cmds.drop_first().push(c));
        assert(cmds.push(c)[0] == cmds[0]);
        assert(encode_points(cmds.push(c)) == points_of(cmds[0]) + encode_points(
            cmds.drop_first().push(c),
        ));
        assert(encode_points(cmds.push(c)) =~= encode_points(cmds) + points_of(c));
    }
}

/// Walking a well-formed path's commands and encoding them again gives back
/// the same verb and point buffers.
pub proof fn lemma_path_round_trip<P>(verbs: Seq<PathVerb>, points: Seq<P>)
    requires
        points.len() == points_needed(verbs),
    ensures
        encode_verbs(decode(verbs, points)) == verbs,
        encode_points(decode(verbs, points)) == points,
    decreases verbs.len(),
{
    if verbs.len() == 0 {
        assert(decode(verbs, points) =~= seq![]);
        assert(encode_verbs(decode(verbs, points)) =~= verbs);
        assert(points =~= seq![]);
    } else {
        let n = verbs[0].point_count() as int;
        let rest = decode(verbs.drop_first(), points.skip(n));
        lemma_path_round_trip(verbs.drop_first(), points.skip(n));
        let d = decode(verbs, points);
        assert(d == seq![command_of(verbs[0], points)] + rest);
        assert(d.drop_first() =~= rest);
        assert(points_of(command_of(verbs[0], points)) =~= points.take(n));
        assert(verb_of(command_of(verbs[0], points)) == verbs[0]);
        assert(encode_verbs(d) =~= seq![verbs[0]] + encode_verbs(rest));
        assert(encode_verbs(d) =~= verbs);
        assert(encode_points(d) =~= points);
    }
}

} // verus!
