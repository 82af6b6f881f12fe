//! The records that flow through the relay, and their mathematical views.

use vstd::prelude::*;

verus! {

/// One arrival prediction as the feed reports it.
pub struct RawPrediction {
    /// Route identifier.
    pub rt: String,
    /// Destination text.
    pub des: String,
    /// Stop identifier.
    pub stpid: String,
    /// Vehicle identifier.
    pub vid: String,
    /// Time of the observation, `YYYYMMDD HH:MM:SS`.
    pub tmstmp: String,
    /// Predicted arrival time, `YYYYMMDD HH:MM:SS`.
    pub prdtm: String,
    /// Passenger load indicator; empty when the feed gives none.
    pub psgld: String,
}

/// One bus arriving at a stop.
pub struct BusArrival {
    pub bus_id: String,
    /// Seconds from the observation until the predicted arrival.
    pub seconds: i64,
    pub capacity: String,
}

/// The arrivals at one stop that share a route and a destination.
pub struct RouteGroup {
    pub route: String,
    pub destination: String,
    pub arrivals: Vec<BusArrival>,
}

/// Everything shown for one stop.
pub struct StopGroups {
    pub stop: String,
    pub groups: Vec<RouteGroup>,
}

pub ghost struct PredictionView {
    pub rt: Seq<char>,
    pub des: Seq<char>,
    pub stpid: Seq<char>,
    pub vid: Seq<char>,
    pub tmstmp: Seq<char>,
    pub prdtm: Seq<char>,
    pub psgld: Seq<char>,
}

pub ghost struct ArrivalView {
    pub bus_id: Seq<char>,
    pub seconds: int,
    pub capacity: Seq<char>,
}

pub ghost struct GroupView {
    pub route: Seq<char>,
    pub destination: Seq<char>,
    pub arrivals: Seq<ArrivalView>,
}

pub ghost struct StopView {
    pub stop: Seq<char>,
    pub groups: Seq<GroupView>,
}

impl View for RawPrediction {
    type V = PredictionView;

    open spec fn view(&self) -> PredictionView {
        PredictionView {
            rt: self.rt@,
            des: self.des@,
            stpid: self.stpid@,
            vid: self.vid@,
            tmstmp: self.tmstmp@,
            prdtm: self.prdtm@,
            psgld: self.psgld@,
        }
    }
}

impl View for BusArrival {
    type V = ArrivalView;

    open spec fn view(&self) -> ArrivalView {
        ArrivalView { bus_id: self.bus_id@, seconds: self.seconds as int, capacity: self.capacity@ }
    }
}

impl View for RouteGroup {
    type V = GroupView;

    open spec fn view(&self) -> GroupView {
        GroupView {
            route: self.route@,
            destination: self.destination@,
            arrivals: arrivals_view(self.arrivals@),
        }
    }
}

impl View for StopGroups {
    type V = StopView;

    open spec fn view(&self) -> StopView {
        StopView { stop: self.stop@, groups: groups_view(self.groups@) }
    }
}

pub open spec fn predictions_view(v: Seq<RawPrediction>) -> Seq<PredictionView> {
    v.map_values(|p: RawPrediction| p@)
}

pub open spec fn arrivals_view(v: Seq<BusArrival>) -> Seq<ArrivalView> {
    v.map_values(|a: BusArrival| a@)
}

pub open spec fn groups_view(v: Seq<RouteGroup>) -> Seq<GroupView> {
    v.map_values(|g: RouteGroup| g@)
}

pub open spec fn stops_view(v: Seq<StopGroups>) -> Seq<StopView> {
    v.map_values(|s: StopGroups| s@)
}

} // verus!
