use vstd::prelude::*;

verus! {

/// Largest magnitude of a coordinate, a velocity component, a radius or a
/// box side that a well-formed particle holds.
pub const LIMIT: i64 = 1_000_000_000;

/// A circular particle: position, velocity, radius, mass (in units of pi),
/// the wall impulse it has accumulated, and the side of the box it lives in.
#[derive(Clone, Copy, Debug, PartialEq, Eq, Structural)]
pub struct Particle {
    pub x: i64,
    pub y: i64,
    pub vx: i64,
    pub vy: i64,
    pub radius: i64,
    pub mass: i64,
    pub momentum_transferred: u128,
    pub box_size: i64,
}

pub open spec fn abs(v: int) -> int {
    if v < 0 { -v } else { v }
}

pub open spec fn within(v: int, bound: int) -> bool {
    -bound <= v <= bound
}

/// The bounding circle touches or crosses one of the two walls of an axis.
pub open spec fn hits_wall(pos: int, r: int, side: int) -> bool {
    pos - r <= 0 || pos + r >= side
}

/// The coordinate at which the particle touches the wall it has crossed.
pub open spec fn contact(pos: int, r: int, side: int) -> int {
    if pos - r <= 0 { r } else { side - r }
}

/// The coordinate after reflecting an overshoot around the contact point.
pub open spec fn reflected_pos(pos: int, r: int, side: int) -> int {
    if hits_wall(pos, r, side) { 2 * contact(pos, r, side) - pos } else { pos }
}

pub open spec fn reflected_vel(pos: int, vel: int, r: int, side: int) -> int {
    if hits_wall(pos, r, side) { -vel } else { vel }
}

/// The impulse that a perpendicular elastic bounce hands to the wall.
pub open spec fn wall_impulse(pos: int, vel: int, r: int, side: int, mass: int) -> int {
    if hits_wall(pos, r, side) { 2 * mass * abs(vel) } else { 0 }
}

/// Twice the kinetic energy of a particle, in units of pi.
pub open spec fn energy(p: Particle) -> int {
    p.mass * (p.vx * p.vx + p.vy * p.vy)
}

impl Particle {
    /// The values fit the limits and the mass is the squared radius.
    pub open spec fn wf(self) -> bool {
        &&& 0 < self.radius <= LIMIT
        &&& 0 < self.box_size <= LIMIT
        &&& within(self.x as int, LIMIT as int)
        &&& within(self.y as int, LIMIT as int)
        &&& within(self.vx as int, LIMIT as int)
        &&& within(self.vy as int, LIMIT as int)
        &&& self.mass == self.radius * self.radius
    }

    /// The accumulated impulse after the wall reflections of this state.
    pub open spec fn impulse_after_walls(self) -> int {
        self.momentum_transferred
            + wall_impulse(self.x as int, self.vx as int, self.radius as int, self.box_size as int, self.mass as int)
            + wall_impulse(self.y as int, self.vy as int, self.radius as int, self.box_size as int, self.mass as int)
    }

    /// The state after reflecting off the walls, each axis on its own.
    pub open spec fn after_walls(self) -> Particle {
        Particle {
            x: reflected_pos(self.x as int, self.radius as int, self.box_size as int) as i64,
            y: reflected_pos(self.y as int, self.radius as int, self.box_size as int) as i64,
            vx: reflected_vel(self.x as int, self.vx as int, self.radius as int, self.box_size as int) as i64,
            vy: reflected_vel(self.y as int, self.vy as int, self.radius as int, self.box_size as int) as i64,
            momentum_transferred: self.impulse_after_walls() as u128,
            ..self
        }
    }

    /// The state of a particle that has moved but not yet met the walls: its
    /// coordinates may overshoot the limits by up to twice the limit.
    pub open spec fn in_motion(self) -> bool {
        &&& 0 < self.radius <= LIMIT
        &&& 0 < self.box_size <= LIMIT
        &&& within(self.x as int, 3 * LIMIT)
        &&& within(self.y as int, 3 * LIMIT)
        &&& within(self.vx as int, LIMIT as int)
        &&& within(self.vy as int, LIMIT as int)
        &&& self.mass == self.radius * self.radius
    }

    pub open spec fn moved_x(self, dt: int) -> int {
        self.x + self.vx * dt
    }

    pub open spec fn moved_y(self, dt: int) -> int {
        self.y + self.vy * dt
    }

    /// The state after moving by the velocity for `dt`, before the walls.
    pub open spec fn moved(self, dt: int) -> Particle {
        Particle { x: self.moved_x(dt) as i64, y: self.moved_y(dt) as i64, ..self }
    }

    /// One tick of a single particle: motion, then wall reflection.
    pub open spec fn advanced(self, dt: int) -> Particle {
        self.moved(dt).after_walls()
    }

    /// The tick of this particle stays within the representable range.
    pub open spec fn can_advance(self, dt: int) -> bool {
        &&& within(self.moved_x(dt), 3 * LIMIT)
        &&& within(self.moved_y(dt), 3 * LIMIT)
        &&& self.moved(dt).impulse_after_walls() <= u128::MAX
        &&& self.advanced(dt).wf()
    }

    /// A particle at `(x, y)` with velocity `(vx, vy)` in a box of side
    /// `box_size`; its mass is the squared radius and it has handed no impulse
    /// to the walls yet.
    pub fn new(x: i64, y: i64, vx: i64, vy: i64, radius: i64, box_size: i64) -> (r: Particle)
        requires
            0 < radius <= LIMIT,
        ensures
            r == (Particle { x, y, vx, vy, radius, mass: (radius * radius) as i64, momentum_transferred: 0, box_size }),
    {
        proof {
            assert(radius * radius <= LIMIT * LIMIT) by (nonlinear_arith)
                requires 0 < radius <= LIMIT;
        }
        let mass = radius * radius;
        Particle { x, y, vx, vy, radius, mass, momentum_transferred: 0, box_size }
    }

    /// Reflects the particle off every wall that its bounding circle reaches:
    /// the velocity component normal to the wall changes sign, the position is
    /// mirrored around the contact point, and the bounce's impulse is added.
    pub fn handle_box_collision(&mut self)
        requires
            old(self).in_motion(),
            old(self).impulse_after_walls() <= u128::MAX,
        ensures
            *final(self) == old(self).after_walls(),
    {
        let ix = self.axis_impulse(self.x, self.vx);
        let iy = self.axis_impulse(self.y, self.vy);
        self.momentum_transferred = self.momentum_transferred + ix + iy;
        let r = self.radius;
        let side = self.box_size;
        if self.x - r <= 0 || self.x + r >= side {
            self.vx = -self.vx;
            let c = if self.x - r <= 0 { r } else { side - r };
            self.x = 2 * c - self.x;
        }
        if self.y - r <= 0 || self.y + r >= side {
            self.vy = -self.vy;
            let c = if self.y - r <= 0 { r } else { side - r };
            self.y = 2 * c - self.y;
        }
    }

    /// The impulse that a bounce off the walls of one axis hands over, given
    /// the moved coordinate and the velocity along that axis.
    fn axis_impulse(&self, pos: i64, vel: i64) -> (r: u128)
        requires
            self.in_motion(),
            within(pos as int, 3 * LIMIT),
            within(vel as int, LIMIT as int),
        ensures
            r == wall_impulse(pos as int, vel as int, self.radius as int, self.box_size as int, self.mass as int),
            r <= 2 * LIMIT * LIMIT * LIMIT,
    {
        if pos - self.radius <= 0 || pos + self.radius >= self.box_size {
            let speed: u128 = if vel < 0 { (-(vel as i128)) as u128 } else { vel as u128 };
            assert(speed == abs(vel as int));
            proof {
                assert(self.mass * speed <= LIMIT * LIMIT * LIMIT) by (nonlinear_arith)
                    requires self.mass == self.radius * self.radius, 0 < self.radius <= LIMIT,
                        0 <= speed <= LIMIT;
            }
            let prod: u128 = (self.mass as u128) * speed;
            assert(2 * prod == 2 * self.mass * abs(vel as int)) by (nonlinear_arith)
                requires prod == self.mass * speed, speed == abs(vel as int);
            2 * prod
        } else {
            0
        }
    }

    /// Tells whether one tick of `dt` keeps this particle representable.
    pub fn can_advance_by(&self, dt: i64) -> (r: bool)
        requires
            self.wf(),
            dt > 0,
        ensures
            r == self.can_advance(dt as int),
    {
        proof {
            assert(abs(self.vx * dt) <= LIMIT * dt) by (nonlinear_arith)
                requires within(self.vx as int, LIMIT as int), dt > 0;
            assert(abs(self.vy * dt) <= LIMIT * dt) by (nonlinear_arith)
                requires within(self.vy as int, LIMIT as int), dt > 0;
        }
        let nx: i128 = self.x as i128 + (self.vx as i128) * (dt as i128);
        let ny: i128 = self.y as i128 + (self.vy as i128) * (dt as i128);
        let bound: i128 = 3 * (LIMIT as i128);
        if nx < -bound || nx > bound || ny < -bound || ny > bound {
            return false;
        }
        let mut m = *self;
        m.x = nx as i64;
        m.y = ny as i64;
        assert(m == self.moved(dt as int));
        let ix = m.axis_impulse(m.x, m.vx);
        let iy = m.axis_impulse(m.y, m.vy);
        if m.momentum_transferred > u128::MAX - (ix + iy) {
            return false;
        }
        m.handle_box_collision();
        -LIMIT <= m.x && m.x <= LIMIT && -LIMIT <= m.y && m.y <= LIMIT
    }

    /// Moves the particle by its velocity for `dt`, then reflects it off the
    /// walls that it reached.
    pub fn update(&mut self, dt: i64)
        requires
            old(self).wf(),
            dt > 0,
            old(self).can_advance(dt as int),
        ensures
            *final(self) == old(self).advanced(dt as int),
            final(self).wf(),
    {
        proof {
            assert(abs(self.vx * dt) <= LIMIT * dt) by (nonlinear_arith)
                requires within(self.vx as int, LIMIT as int), dt > 0;
            assert(abs(self.vy * dt) <= LIMIT * dt) by (nonlinear_arith)
                requires within(self.vy as int, LIMIT as int), dt > 0;
        }
        let nx: i128 = self.x as i128 + (self.vx as i128) * (dt as i128);
        let ny: i128 = self.y as i128 + (self.vy as i128) * (dt as i128);
        self.x = nx as i64;
        self.y = ny as i64;
        self.handle_box_collision();
    }

    /// Tells whether the particle is well formed.
    pub fn is_wf(&self) -> (r: bool)
        ensures
            r == self.wf(),
    {
        if !(0 < self.radius && self.radius <= LIMIT) {
            return false;
        }
        proof {
            assert(self.radius * self.radius <= LIMIT * LIMIT) by (nonlinear_arith)
                requires 0 < self.radius <= LIMIT;
        }
        0 < self.box_size && self.box_size <= LIMIT
            && -LIMIT <= self.x && self.x <= LIMIT && -LIMIT <= self.y && self.y <= LIMIT
            && -LIMIT <= self.vx && self.vx <= LIMIT && -LIMIT <= self.vy && self.vy <= LIMIT
            && self.mass as i128 == (self.radius as i128) * (self.radius as i128)
    }
}

} // verus!
